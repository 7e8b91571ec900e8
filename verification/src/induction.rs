//! What tree a set of encoded columns induces, stated as mathematics.
//!
//! The functions here are the definition against which the executable
//! trainer of [`crate::id_3`] is verified: which attribute is split on, how
//! the instances are grouped, when a branch ends in a leaf, and what a tree
//! answers to a query.
use crate::entropy::{lemma_split_positive, split_denominator, split_numerator};
use crate::tally::{
    count, distinct, first_index, lemma_count_contains, lemma_distinct, lemma_first_index,
};
use crate::{is_ordered_majority, ordered_majority, without};
use vstd::prelude::*;

verus! {

/// A decision tree.
pub enum Tree {
    /// A node that splits on the attribute `category`. `key` is the code of
    /// the parent's attribute that leads here; `value` is answered when no
    /// child has the key that a query asks for.
    Internal { category: usize, key: u32, value: u32, children: Seq<Tree> },
    /// A node that answers `value`. `key` is the code of the parent's
    /// attribute that leads here.
    Leaf { key: u32, value: u32 },
}

impl Tree {
    /// The code of the parent's attribute that leads to this node.
    pub open spec fn key(self) -> u32 {
        match self {
            Tree::Internal { key, .. } => key,
            Tree::Leaf { key, .. } => key,
        }
    }

    /// The value recorded at this node: a leaf's answer, or an internal
    /// node's fallback.
    pub open spec fn value(self) -> u32 {
        match self {
            Tree::Internal { value, .. } => value,
            Tree::Leaf { value, .. } => value,
        }
    }

    /// Every attribute that the tree splits on lies below `width`, so that
    /// an instance of `width` codes can be read at each node.
    pub open spec fn fits(self, width: nat) -> bool
        decreases self,
    {
        match self {
            Tree::Leaf { .. } => true,
            Tree::Internal { category, children, .. } => category < width && forall|i: int|
                0 <= i < children.len() ==> (#[trigger] children[i]).fits(width),
        }
    }

    /// What the tree answers for `instance`: at an internal node the first
    /// child whose key is the instance's code of the split attribute
    /// answers; without such a child the node's own value is the answer.
    pub open spec fn answer(self, instance: Seq<u32>) -> u32
        decreases self,
    {
        match self {
            Tree::Leaf { value, .. } => value,
            Tree::Internal { category, value, children, .. } => {
                if category < instance.len() {
                    let next = first_index(keys_of(children), instance[category as int]);
                    if 0 <= next < children.len() {
                        children[next].answer(instance)
                    } else {
                        value
                    }
                } else {
                    value
                }
            },
        }
    }

    /// Every value recorded in the tree, at a leaf or as a fallback, occurs
    /// in `column`.
    pub open spec fn drawn_from(self, column: Seq<u32>) -> bool
        decreases self,
    {
        match self {
            Tree::Leaf { value, .. } => column.contains(value),
            Tree::Internal { value, children, .. } => column.contains(value) && forall|i: int|
                0 <= i < children.len() ==> (#[trigger] children[i]).drawn_from(column),
        }
    }

    /// The longest path from this node down to a leaf, counted in edges.
    pub open spec fn depth(self) -> nat
        decreases self,
    {
        match self {
            Tree::Leaf { .. } => 0,
            Tree::Internal { children, .. } => deepest(children, children.len()) + if children.len()
                > 0 {
                1nat
            } else {
                0nat
            },
        }
    }
}

/// The greatest depth among the first `upto` of `children`.
pub open spec fn deepest(children: Seq<Tree>, upto: nat) -> nat
    decreases children, upto,
{
    if upto == 0 || upto > children.len() {
        0
    } else {
        let rest = deepest(children, (upto - 1) as nat);
        let last = children[upto - 1].depth();
        if last > rest {
            last
        } else {
            rest
        }
    }
}

/// The keys of `children`, in order.
pub open spec fn keys_of(children: Seq<Tree>) -> Seq<u32> {
    Seq::new(children.len(), |i: int| children[i].key())
}

/// The codes that `column` holds at the instances `partition`, in order.
pub open spec fn gather(column: Seq<u32>, partition: Seq<usize>) -> Seq<u32> {
    Seq::new(partition.len(), |i: int| column[partition[i] as int])
}

/// For each instance of `partition`, its code of `attribute` and its code of
/// `target`.
pub open spec fn pairs_over(
    columns: Seq<Seq<u32>>,
    partition: Seq<usize>,
    attribute: usize,
    target: usize,
) -> Seq<(u32, u32)> {
    Seq::new(
        partition.len(),
        |i: int|
            (columns[attribute as int][partition[i] as int], columns[target as int][partition[i] as int]),
    )
}

/// Over `partition`, splitting on attribute `a` leaves strictly less
/// weighted entropy of `target` than splitting on attribute `b`.
pub open spec fn better(
    columns: Seq<Seq<u32>>,
    partition: Seq<usize>,
    target: usize,
    a: usize,
    b: usize,
) -> bool {
    let x = pairs_over(columns, partition, a, target);
    let y = pairs_over(columns, partition, b, target);
    split_numerator(x) * split_denominator(y) < split_numerator(y) * split_denominator(x)
}

/// The place, among the first `upto` of `candidates`, of the attribute of
/// least weighted entropy; of several such attributes, the earliest.
pub open spec fn best_position(
    columns: Seq<Seq<u32>>,
    partition: Seq<usize>,
    target: usize,
    candidates: Seq<usize>,
    upto: nat,
) -> int
    decreases upto,
{
    if upto <= 1 {
        0
    } else {
        let earlier = best_position(columns, partition, target, candidates, (upto - 1) as nat);
        if better(columns, partition, target, candidates[upto - 1], candidates[earlier]) {
            upto - 1
        } else {
            earlier
        }
    }
}

/// The instances of `partition` whose code, given in `codes` place by place,
/// is `code`; their order is kept.
pub open spec fn members(partition: Seq<usize>, codes: Seq<u32>, code: u32) -> Seq<usize>
    decreases partition.len(),
{
    if partition.len() == 0 || codes.len() != partition.len() {
        Seq::empty()
    } else {
        let earlier = members(partition.drop_last(), codes.drop_last(), code);
        if codes.last() == code {
            earlier.push(partition.last())
        } else {
            earlier
        }
    }
}

/// Every target code of `votes` is the same.
pub open spec fn uniform(votes: Seq<u32>) -> bool {
    forall|i: int| 0 <= i < votes.len() ==> #[trigger] votes[i] == votes[0]
}

/// The internal node, with the given `key` and fallback `value`, that
/// `partition` induces when `candidates` are the attributes left to split
/// on.
///
/// The node splits on the candidate of least weighted entropy, has one
/// child for each code of that attribute that occurs in `partition`, in the
/// order of first occurrence, and hands every child the candidates without
/// the one chosen. Without candidates it has no children.
pub open spec fn grow(
    columns: Seq<Seq<u32>>,
    partition: Seq<usize>,
    candidates: Seq<usize>,
    target: usize,
    key: u32,
    value: u32,
) -> Tree
    decreases candidates.len(), 0nat,
{
    if candidates.len() == 0 {
        Tree::Internal { category: 0, key, value, children: Seq::empty() }
    } else {
        let chosen = best_position(columns, partition, target, candidates, candidates.len());
        let attribute = candidates[chosen];
        let codes = gather(columns[attribute as int], partition);
        let rest = without(candidates, chosen);
        Tree::Internal {
            category: attribute,
            key,
            value,
            children: Seq::new(
                distinct(codes).len(),
                |j: int|
                    branch(
                        columns,
                        members(partition, codes, distinct(codes)[j]),
                        rest,
                        target,
                        distinct(codes)[j],
                    ),
            ),
        }
    }
}

/// The child, reached by `key`, that `partition` induces when `candidates`
/// are the attributes left: a leaf with the majority target code when no
/// candidate is left, a leaf with the common target code when there is only
/// one, and else an internal node whose fallback is the majority target
/// code.
pub open spec fn branch(
    columns: Seq<Seq<u32>>,
    partition: Seq<usize>,
    candidates: Seq<usize>,
    target: usize,
    key: u32,
) -> Tree
    decreases candidates.len(), 1nat,
{
    let votes = gather(columns[target as int], partition);
    if candidates.len() == 0 {
        Tree::Leaf { key, value: ordered_majority(votes) }
    } else if uniform(votes) {
        Tree::Leaf { key, value: votes[0] }
    } else {
        grow(columns, partition, candidates, target, key, ordered_majority(votes))
    }
}

/// All instances of a data set of `n` instances, in order.
pub open spec fn all_instances(n: nat) -> Seq<usize> {
    Seq::new(n, |i: int| i as usize)
}

/// All attributes of a data set of `width` attributes but `target`, in
/// order.
pub open spec fn all_but(width: nat, target: usize) -> Seq<usize> {
    Seq::new(
        if target < width {
            (width - 1) as nat
        } else {
            width
        },
        |i: int|
            if i < target {
                i as usize
            } else {
                (i + 1) as usize
            },
    )
}

/// The number of instances of `columns`: the length of its first column.
pub open spec fn instance_count(columns: Seq<Seq<u32>>) -> nat {
    if columns.len() == 0 {
        0
    } else {
        columns[0].len()
    }
}

/// Every column has the same length.
pub open spec fn rectangular(columns: Seq<Seq<u32>>) -> bool {
    forall|a: int| 0 <= a < columns.len() ==> (#[trigger] columns[a]).len() == instance_count(columns)
}

/// The tree that `columns` induce for the attribute `target`: the root's
/// fallback is the majority target code of all instances, and every other
/// attribute is a candidate.
pub open spec fn induced(columns: Seq<Seq<u32>>, target: usize) -> Tree {
    grow(
        columns,
        all_instances(instance_count(columns)),
        all_but(columns.len(), target),
        target,
        0,
        ordered_majority(columns[target as int]),
    )
}

/// Appending one instance with its code extends the group of that code and
/// no other.
pub proof fn lemma_members_push(partition: Seq<usize>, codes: Seq<u32>, instance: usize, code: u32)
    requires
        partition.len() == codes.len(),
    ensures
        members(partition.push(instance), codes.push(code), code) == members(
            partition,
            codes,
            code,
        ).push(instance),
        forall|other: u32|
            other != code ==> #[trigger] members(partition.push(instance), codes.push(code), other)
                == members(partition, codes, other),
{
    assert(partition.push(instance).drop_last() =~= partition);
    assert(codes.push(code).drop_last() =~= codes);
}

/// A group holds as many instances as its code occurs, and each of them is
/// an instance of the partition.
pub proof fn lemma_members(partition: Seq<usize>, codes: Seq<u32>, code: u32)
    requires
        partition.len() == codes.len(),
    ensures
        members(partition, codes, code).len() == count(codes, code),
        forall|k: int|
            0 <= k < members(partition, codes, code).len() ==> partition.contains(
                #[trigger] members(partition, codes, code)[k],
            ),
    decreases partition.len(),
{
    if partition.len() > 0 {
        let front = partition.drop_last();
        lemma_members(front, codes.drop_last(), code);
        let group = members(partition, codes, code);
        assert forall|k: int| 0 <= k < group.len() implies partition.contains(#[trigger] group[k]) by {
            let earlier = members(front, codes.drop_last(), code);
            if k < earlier.len() {
                assert(front.contains(earlier[k]));
                let i = choose|i: int| 0 <= i < front.len() && front[i] == earlier[k];
                assert(partition[i] == group[k]);
            } else {
                assert(partition[partition.len() - 1] == group[k]);
            }
        }
    }
}

/// The best place lies among the candidates considered.
pub proof fn lemma_best_position_bounds(
    columns: Seq<Seq<u32>>,
    partition: Seq<usize>,
    target: usize,
    candidates: Seq<usize>,
    upto: nat,
)
    ensures
        0 <= best_position(columns, partition, target, candidates, upto),
        upto >= 1 ==> best_position(columns, partition, target, candidates, upto) < upto,
    decreases upto,
{
    if upto > 1 {
        lemma_best_position_bounds(columns, partition, target, candidates, (upto - 1) as nat);
    }
}

/// Whatever the instance, a tree answers with one of its recorded values.
pub proof fn lemma_answer_drawn_from(tree: Tree, column: Seq<u32>, instance: Seq<u32>)
    requires
        tree.drawn_from(column),
    ensures
        column.contains(tree.answer(instance)),
    decreases tree,
{
    match tree {
        Tree::Leaf { .. } => {},
        Tree::Internal { category, value, children, .. } => {
            if category < instance.len() {
                let next = first_index(keys_of(children), instance[category as int]);
                if 0 <= next < children.len() {
                    assert(children[next].drawn_from(column));
                    lemma_answer_drawn_from(children[next], column, instance);
                }
            }
        },
    }
}

/// The instances of `partition` exist in a data set of `n` instances.
pub open spec fn within(partition: Seq<usize>, n: nat) -> bool {
    forall|i: int| 0 <= i < partition.len() ==> #[trigger] partition[i] < n
}

/// The majority of the target codes of a partition that is not empty is one
/// of the codes of the target column.
pub proof fn lemma_majority_in_column(column: Seq<u32>, partition: Seq<usize>)
    requires
        partition.len() > 0,
        within(partition, column.len()),
    ensures
        is_ordered_majority(gather(column, partition), ordered_majority(gather(column, partition))),
        column.contains(ordered_majority(gather(column, partition))),
{
    let votes = gather(column, partition);
    lemma_ordered_majority_exists(votes);
    let winner = ordered_majority(votes);
    let i = choose|i: int| 0 <= i < votes.len() && votes[i] == winner;
    assert(column[partition[i] as int] == winner);
}

/// Among votes, of which there is at least one, some value is the ordered
/// majority.
pub proof fn lemma_ordered_majority_exists(votes: Seq<u32>)
    requires
        votes.len() > 0,
    ensures
        is_ordered_majority(votes, ordered_majority(votes)),
{
    let winner = leader(votes, votes.len());
    lemma_leader(votes, votes.len());
    assert forall|x: u32| #[trigger] count(votes, x) <= count(votes, winner) && (count(votes, x)
        == count(votes, winner) ==> x <= winner) by {
        lemma_count_contains(votes, x);
        lemma_count_contains(votes, winner);
        if votes.contains(x) {
            let i = choose|i: int| 0 <= i < votes.len() && votes[i] == x;
            assert(count(votes, votes[i]) <= count(votes, winner));
        }
    }
    assert(is_ordered_majority(votes, winner));
}

/// Among the first `upto` votes, the one whose value occurs most often in
/// all of `votes`; of several, the one of greatest value.
pub open spec fn leader(votes: Seq<u32>, upto: nat) -> u32
    decreases upto,
{
    if upto <= 1 {
        votes[0]
    } else {
        let earlier = leader(votes, (upto - 1) as nat);
        let next = votes[upto - 1];
        if count(votes, next) > count(votes, earlier) || (count(votes, next) == count(
            votes,
            earlier,
        ) && next > earlier) {
            next
        } else {
            earlier
        }
    }
}

proof fn lemma_leader(votes: Seq<u32>, upto: nat)
    requires
        0 < upto <= votes.len(),
    ensures
        votes.contains(leader(votes, upto)),
        forall|i: int|
            0 <= i < upto ==> count(votes, #[trigger] votes[i]) <= count(votes, leader(votes, upto)),
        forall|i: int|
            0 <= i < upto && count(votes, #[trigger] votes[i]) == count(votes, leader(votes, upto))
                ==> votes[i] <= leader(votes, upto),
    decreases upto,
{
    if upto > 1 {
        lemma_leader(votes, (upto - 1) as nat);
        assert(votes[upto - 1] == votes[upto - 1]);
    } else {
        assert(votes[0] == votes[0]);
    }
}

/// The tree grown from a partition records only codes of the target column,
/// and splits only on candidates.
pub proof fn lemma_grow(
    columns: Seq<Seq<u32>>,
    partition: Seq<usize>,
    candidates: Seq<usize>,
    target: usize,
    key: u32,
    value: u32,
)
    requires
        rectangular(columns),
        target < columns.len(),
        within(partition, instance_count(columns)),
        forall|i: int| 0 <= i < candidates.len() ==> #[trigger] candidates[i] < columns.len(),
        columns[target as int].contains(value),
    ensures
        grow(columns, partition, candidates, target, key, value).drawn_from(columns[target as int]),
        grow(columns, partition, candidates, target, key, value).fits(columns.len()),
        grow(columns, partition, candidates, target, key, value).key() == key,
        grow(columns, partition, candidates, target, key, value).value() == value,
    decreases candidates.len(), 0nat,
{
    if candidates.len() > 0 {
        let chosen = best_position(columns, partition, target, candidates, candidates.len());
        lemma_best_position_bounds(columns, partition, target, candidates, candidates.len());
        let attribute = candidates[chosen];
        let codes = gather(columns[attribute as int], partition);
        let rest = without(candidates, chosen);
        let tree = grow(columns, partition, candidates, target, key, value);
        let groups = distinct(codes);
        lemma_distinct(codes);
        assert forall|j: int| 0 <= j < groups.len() implies (#[trigger] tree->Internal_children[j]).drawn_from(
            columns[target as int],
        ) && tree->Internal_children[j].fits(columns.len()) by {
            let part = members(partition, codes, groups[j]);
            lemma_members(partition, codes, groups[j]);
            assert(groups.contains(groups[j]));
            lemma_count_contains(codes, groups[j]);
            assert forall|k: int| 0 <= k < part.len() implies #[trigger] part[k] < instance_count(
                columns,
            ) by {
                assert(partition.contains(part[k]));
            }
            lemma_branch(columns, part, rest, target, groups[j]);
        }
    }
}

/// The child grown from a partition that is not empty records only codes of
/// the target column, and splits only on candidates.
pub proof fn lemma_branch(
    columns: Seq<Seq<u32>>,
    partition: Seq<usize>,
    candidates: Seq<usize>,
    target: usize,
    key: u32,
)
    requires
        rectangular(columns),
        target < columns.len(),
        partition.len() > 0,
        within(partition, instance_count(columns)),
        forall|i: int| 0 <= i < candidates.len() ==> #[trigger] candidates[i] < columns.len(),
    ensures
        branch(columns, partition, candidates, target, key).drawn_from(columns[target as int]),
        branch(columns, partition, candidates, target, key).fits(columns.len()),
        branch(columns, partition, candidates, target, key).key() == key,
    decreases candidates.len(), 1nat,
{
    let column = columns[target as int];
    let votes = gather(column, partition);
    lemma_majority_in_column(column, partition);
    if candidates.len() == 0 {
    } else if uniform(votes) {
        assert(column[partition[0] as int] == votes[0]);
    } else {
        lemma_grow(columns, partition, candidates, target, key, ordered_majority(votes));
    }
}

/// One piece of the listing of a tree.
#[derive(Clone, Copy, Debug, PartialEq, Eq, Structural)]
pub enum Line {
    /// The indentation that opens the listing of an internal node at the
    /// given depth.
    Indent(usize),
    /// A leaf.
    Leaf { key: u32, value: u32 },
    /// An internal node at the given depth, after its children.
    Internal { category: usize, key: u32, depth: usize },
}

impl Tree {
    /// The listing of the tree when its root stands at `depth`: a leaf is
    /// one line; an internal node is its indentation, the listings of its
    /// children one level deeper, and then its own line.
    pub open spec fn listing(self, depth: nat) -> Seq<Line>
        decreases self, 0nat,
    {
        match self {
            Tree::Leaf { key, value } => seq![Line::Leaf { key, value }],
            Tree::Internal { category, key, children, .. } => seq![Line::Indent(depth as usize)]
                + listings(children, children.len(), depth + 1).push(
                Line::Internal { category, key, depth: depth as usize },
            ),
        }
    }
}

/// The listings of the first `upto` of `children`, one after the other.
pub open spec fn listings(children: Seq<Tree>, upto: nat, depth: nat) -> Seq<Line>
    decreases children, upto,
{
    if upto == 0 || upto > children.len() {
        Seq::empty()
    } else {
        listings(children, (upto - 1) as nat, depth) + children[upto - 1].listing(depth)
    }
}

/// No child lies deeper than the deepest.
pub proof fn lemma_deepest(children: Seq<Tree>, upto: nat)
    requires
        upto <= children.len(),
    ensures
        forall|i: int| 0 <= i < upto ==> (#[trigger] children[i]).depth() <= deepest(children, upto),
    decreases upto,
{
    if upto > 0 {
        lemma_deepest(children, (upto - 1) as nat);
    }
}

/// The codes of the instance `i`, one for each attribute.
pub open spec fn row(columns: Seq<Seq<u32>>, i: int) -> Seq<u32> {
    Seq::new(columns.len(), |a: int| columns[a][i])
}

/// How many of the first `upto` instances of `columns` the tree answers
/// with the instance's own code of `target`.
pub open spec fn hits(tree: Tree, columns: Seq<Seq<u32>>, target: usize, upto: nat) -> nat
    decreases upto,
{
    if upto == 0 {
        0
    } else {
        hits(tree, columns, target, (upto - 1) as nat) + if tree.answer(row(columns, upto - 1))
            == columns[target as int][upto - 1] {
            1nat
        } else {
            0nat
        }
    }
}

/// There are no more hits than instances.
pub proof fn lemma_hits_bound(tree: Tree, columns: Seq<Seq<u32>>, target: usize, upto: nat)
    ensures
        hits(tree, columns, target, upto) <= upto,
    decreases upto,
{
    if upto > 0 {
        lemma_hits_bound(tree, columns, target, (upto - 1) as nat);
    }
}

/// Whatever instance is asked for, the tree induced from a data set that
/// is not empty answers with a code that occurs in the target column of
/// that data set.
pub proof fn lemma_answers_are_training_targets(
    columns: Seq<Seq<u32>>,
    target: usize,
    instance: Seq<u32>,
)
    requires
        rectangular(columns),
        target < columns.len(),
        0 < instance_count(columns) <= usize::MAX,
    ensures
        columns[target as int].contains(induced(columns, target).answer(instance)),
{
    let column = columns[target as int];
    let everyone = all_instances(instance_count(columns));
    assert(gather(column, everyone) =~= column);
    lemma_majority_in_column(column, everyone);
    lemma_grow(
        columns,
        everyone,
        all_but(columns.len(), target),
        target,
        0,
        ordered_majority(column),
    );
    lemma_answer_drawn_from(induced(columns, target), column, instance);
}

/// An internal node without a child for the instance's code of the split
/// attribute answers with its own value.
pub proof fn lemma_unknown_key_falls_back(tree: Tree, instance: Seq<u32>)
    requires
        tree is Internal,
        tree->Internal_category < instance.len(),
        !keys_of(tree->Internal_children).contains(instance[tree->Internal_category as int]),
    ensures
        tree.answer(instance) == tree.value(),
{
    let keys = keys_of(tree->Internal_children);
    let code = instance[tree->Internal_category as int];
    lemma_first_index(keys, code);
    if first_index(keys, code) >= 0 {
        assert(keys.contains(keys[first_index(keys, code)]));
    }
}

/// The node grown from a partition has one child for each code of the
/// split attribute that occurs in the partition, under that code as its
/// key, and no two children share a key.
pub proof fn lemma_grow_keys(
    columns: Seq<Seq<u32>>,
    partition: Seq<usize>,
    candidates: Seq<usize>,
    target: usize,
    key: u32,
    value: u32,
)
    requires
        rectangular(columns),
        target < columns.len(),
        within(partition, instance_count(columns)),
        candidates.len() > 0,
        forall|i: int| 0 <= i < candidates.len() ==> #[trigger] candidates[i] < columns.len(),
    ensures
        ({
            let tree = grow(columns, partition, candidates, target, key, value);
            let codes = gather(columns[tree->Internal_category as int], partition);
            &&& tree is Internal
            &&& candidates.contains(tree->Internal_category)
            &&& keys_of(tree->Internal_children) == distinct(codes)
            &&& keys_of(tree->Internal_children).no_duplicates()
            &&& forall|code: u32| keys_of(tree->Internal_children).contains(code) <==> #[trigger] codes.contains(code)
        }),
{
    let tree = grow(columns, partition, candidates, target, key, value);
    let chosen = best_position(columns, partition, target, candidates, candidates.len());
    lemma_best_position_bounds(columns, partition, target, candidates, candidates.len());
    let attribute = candidates[chosen];
    let codes = gather(columns[attribute as int], partition);
    let rest = without(candidates, chosen);
    lemma_distinct(codes);
    assert forall|j: int| 0 <= j < distinct(codes).len() implies keys_of(tree->Internal_children)[j]
        == distinct(codes)[j] by {
        let part = members(partition, codes, distinct(codes)[j]);
        lemma_members(partition, codes, distinct(codes)[j]);
        assert(distinct(codes).contains(distinct(codes)[j]));
        lemma_count_contains(codes, distinct(codes)[j]);
        assert forall|k: int| 0 <= k < part.len() implies #[trigger] part[k] < instance_count(
            columns,
        ) by {
            assert(partition.contains(part[k]));
        }
        assert forall|i: int| 0 <= i < rest.len() implies #[trigger] rest[i] < columns.len() by {
            if i == chosen {
                assert(candidates[candidates.len() - 1] < columns.len());
            } else {
                assert(candidates[i] < columns.len());
            }
        }
        lemma_branch(columns, part, rest, target, distinct(codes)[j]);
    }
    assert(keys_of(tree->Internal_children) =~= distinct(codes));
}

/// An instance whose code of the split attribute did not occur in the
/// partition that a node was grown from is answered with the node's
/// fallback value.
pub proof fn lemma_unseen_code_falls_back(
    columns: Seq<Seq<u32>>,
    partition: Seq<usize>,
    candidates: Seq<usize>,
    target: usize,
    key: u32,
    value: u32,
    instance: Seq<u32>,
)
    requires
        rectangular(columns),
        target < columns.len(),
        within(partition, instance_count(columns)),
        candidates.len() > 0,
        forall|i: int| 0 <= i < candidates.len() ==> #[trigger] candidates[i] < columns.len(),
        instance.len() >= columns.len(),
        ({
            let tree = grow(columns, partition, candidates, target, key, value);
            !gather(columns[tree->Internal_category as int], partition).contains(
                instance[tree->Internal_category as int],
            )
        }),
    ensures
        grow(columns, partition, candidates, target, key, value).answer(instance) == value,
{
    let tree = grow(columns, partition, candidates, target, key, value);
    lemma_grow_keys(columns, partition, candidates, target, key, value);
    let chosen = best_position(columns, partition, target, candidates, candidates.len());
    lemma_best_position_bounds(columns, partition, target, candidates, candidates.len());
    assert(tree->Internal_category == candidates[chosen]);
    lemma_unknown_key_falls_back(tree, instance);
}

/// Weighted entropy orders the attributes: what is strictly better than an
/// attribute is strictly better than everything that the attribute is at
/// least as good as.
pub proof fn lemma_better_transitive(
    columns: Seq<Seq<u32>>,
    partition: Seq<usize>,
    target: usize,
    a: usize,
    b: usize,
    c: usize,
)
    requires
        better(columns, partition, target, a, b),
        !better(columns, partition, target, c, b),
    ensures
        better(columns, partition, target, a, c),
{
    let x = pairs_over(columns, partition, a, target);
    let y = pairs_over(columns, partition, b, target);
    let z = pairs_over(columns, partition, c, target);
    lemma_split_positive(x);
    lemma_split_positive(y);
    lemma_split_positive(z);
    let (nx, dx) = (split_numerator(x) as int, split_denominator(x) as int);
    let (ny, dy) = (split_numerator(y) as int, split_denominator(y) as int);
    let (nz, dz) = (split_numerator(z) as int, split_denominator(z) as int);
    assert((nx * dy) * dz < (ny * dx) * dz) by (nonlinear_arith)
        requires
            nx * dy < ny * dx,
            dz > 0,
    ;
    assert((ny * dz) * dx <= (nz * dy) * dx) by (nonlinear_arith)
        requires
            ny * dz <= nz * dy,
            dx > 0,
    ;
    assert((nx * dy) * dz == (nx * dz) * dy) by (nonlinear_arith);
    assert((ny * dx) * dz == (ny * dz) * dx) by (nonlinear_arith);
    assert((nz * dy) * dx == (nz * dx) * dy) by (nonlinear_arith);
    assert(nx * dz < nz * dx) by (nonlinear_arith)
        requires
            (nx * dz) * dy < (nz * dx) * dy,
            dy > 0,
    ;
}

/// The attribute chosen among the first `upto` candidates has the least
/// weighted entropy of them, and every candidate before it has strictly
/// more.
pub proof fn lemma_best_position_is_first_minimum(
    columns: Seq<Seq<u32>>,
    partition: Seq<usize>,
    target: usize,
    candidates: Seq<usize>,
    upto: nat,
)
    requires
        1 <= upto <= candidates.len(),
    ensures
        ({
            let chosen = best_position(columns, partition, target, candidates, upto);
            &&& 0 <= chosen < upto
            &&& forall|j: int|
                0 <= j < upto ==> !better(
                    columns,
                    partition,
                    target,
                    #[trigger] candidates[j],
                    candidates[chosen],
                )
            &&& forall|j: int|
                0 <= j < chosen ==> better(
                    columns,
                    partition,
                    target,
                    candidates[chosen],
                    #[trigger] candidates[j],
                )
        }),
    decreases upto,
{
    if upto > 1 {
        let earlier = best_position(columns, partition, target, candidates, (upto - 1) as nat);
        let chosen = best_position(columns, partition, target, candidates, upto);
        lemma_best_position_is_first_minimum(
            columns,
            partition,
            target,
            candidates,
            (upto - 1) as nat,
        );
        if better(columns, partition, target, candidates[upto - 1], candidates[earlier]) {
            assert forall|j: int| 0 <= j < upto - 1 implies better(
                columns,
                partition,
                target,
                candidates[chosen],
                #[trigger] candidates[j],
            ) by {
                lemma_better_transitive(
                    columns,
                    partition,
                    target,
                    candidates[upto - 1],
                    candidates[earlier],
                    candidates[j],
                );
            }
            assert forall|j: int| 0 <= j < upto implies !better(
                columns,
                partition,
                target,
                #[trigger] candidates[j],
                candidates[chosen],
            ) by {
                if j < upto - 1 {
                    lemma_better_asymmetric(
                        columns,
                        partition,
                        target,
                        candidates[chosen],
                        candidates[j],
                    );
                }
            }
        }
    }
}

/// Of two attributes at most one is strictly better than the other.
pub proof fn lemma_better_asymmetric(
    columns: Seq<Seq<u32>>,
    partition: Seq<usize>,
    target: usize,
    a: usize,
    b: usize,
)
    requires
        better(columns, partition, target, a, b),
    ensures
        !better(columns, partition, target, b, a),
{
}

/// No node of the tree splits on `attribute`, unless it has no children.
pub open spec fn avoids(tree: Tree, attribute: usize) -> bool
    decreases tree,
{
    match tree {
        Tree::Leaf { .. } => true,
        Tree::Internal { category, children, .. } => (children.len() == 0 || category != attribute)
            && forall|i: int| 0 <= i < children.len() ==> avoids(#[trigger] children[i], attribute),
    }
}

/// Along no path from the root of the tree down to a leaf is an attribute
/// split on twice.
pub open spec fn splits_once(tree: Tree) -> bool
    decreases tree,
{
    match tree {
        Tree::Leaf { .. } => true,
        Tree::Internal { category, children, .. } => forall|i: int|
            0 <= i < children.len() ==> avoids(#[trigger] children[i], category) && splits_once(
                children[i],
            ),
    }
}

/// What is left of candidates that are all different, after one is taken
/// out, is all different and does not hold the one taken out.
proof fn lemma_without(candidates: Seq<usize>, chosen: int)
    requires
        0 <= chosen < candidates.len(),
        candidates.no_duplicates(),
    ensures
        without(candidates, chosen).no_duplicates(),
        !without(candidates, chosen).contains(candidates[chosen]),
        forall|x: usize| without(candidates, chosen).contains(x) ==> candidates.contains(x),
{
    let rest = without(candidates, chosen);
    let last = candidates.len() - 1;
    assert forall|x: usize| rest.contains(x) implies candidates.contains(x) && x
        != candidates[chosen] by {
        let i = choose|i: int| 0 <= i < rest.len() && rest[i] == x;
        if i == chosen {
            assert(candidates[last] == x);
        } else {
            assert(candidates[i] == x);
        }
    }
}

/// The tree grown from candidates that are all different splits only on
/// candidates, and on none of them twice along a path.
pub proof fn lemma_grow_splits_once(
    columns: Seq<Seq<u32>>,
    partition: Seq<usize>,
    candidates: Seq<usize>,
    target: usize,
    key: u32,
    value: u32,
)
    requires
        candidates.no_duplicates(),
    ensures
        splits_once(grow(columns, partition, candidates, target, key, value)),
        forall|attribute: usize|
            !candidates.contains(attribute) ==> avoids(
                grow(columns, partition, candidates, target, key, value),
                attribute,
            ),
    decreases candidates.len(), 0nat,
{
    if candidates.len() > 0 {
        let tree = grow(columns, partition, candidates, target, key, value);
        let chosen = best_position(columns, partition, target, candidates, candidates.len());
        lemma_best_position_bounds(columns, partition, target, candidates, candidates.len());
        let attribute = candidates[chosen];
        let codes = gather(columns[attribute as int], partition);
        let rest = without(candidates, chosen);
        lemma_without(candidates, chosen);
        assert(candidates.contains(attribute));
        assert forall|j: int| 0 <= j < distinct(codes).len() implies avoids(
            #[trigger] tree->Internal_children[j],
            attribute,
        ) && splits_once(tree->Internal_children[j]) && forall|other: usize|
            !candidates.contains(other) ==> avoids(tree->Internal_children[j], other) by {
            lemma_branch_splits_once(
                columns,
                members(partition, codes, distinct(codes)[j]),
                rest,
                target,
                distinct(codes)[j],
            );
        }
    }
}

/// The child grown from candidates that are all different splits only on
/// candidates, and on none of them twice along a path.
pub proof fn lemma_branch_splits_once(
    columns: Seq<Seq<u32>>,
    partition: Seq<usize>,
    candidates: Seq<usize>,
    target: usize,
    key: u32,
)
    requires
        candidates.no_duplicates(),
    ensures
        splits_once(branch(columns, partition, candidates, target, key)),
        forall|attribute: usize|
            !candidates.contains(attribute) ==> avoids(
                branch(columns, partition, candidates, target, key),
                attribute,
            ),
    decreases candidates.len(), 1nat,
{
    let votes = gather(columns[target as int], partition);
    if candidates.len() == 0 {
    } else if uniform(votes) {
    } else {
        lemma_grow_splits_once(columns, partition, candidates, target, key, ordered_majority(votes));
    }
}

/// The tree induced from a data set splits on no attribute twice along a
/// path, and never on the target.
pub proof fn lemma_induced_splits_once(columns: Seq<Seq<u32>>, target: usize)
    requires
        target < columns.len() <= usize::MAX,
    ensures
        splits_once(induced(columns, target)),
        avoids(induced(columns, target), target),
{
    let candidates = all_but(columns.len(), target);
    assert(candidates.no_duplicates());
    if candidates.contains(target) {
        let i = choose|i: int| 0 <= i < candidates.len() && candidates[i] == target;
        assert(false);
    }
    lemma_grow_splits_once(
        columns,
        all_instances(instance_count(columns)),
        candidates,
        target,
        0,
        ordered_majority(columns[target as int]),
    );
}

/// Over `partition`, instances with the same code of `attribute` have the
/// same code of `target`.
pub open spec fn determines(
    columns: Seq<Seq<u32>>,
    partition: Seq<usize>,
    attribute: usize,
    target: usize,
) -> bool {
    forall|i: int, j: int|
        0 <= i < partition.len() && 0 <= j < partition.len() && columns[attribute as int][(
        #[trigger] partition[i]) as int] == columns[attribute as int][(#[trigger] partition[j]) as int]
            ==> columns[target as int][partition[i] as int] == columns[target as int][partition[j] as int]
}

/// The target codes that stand in the count table of an attribute under one
/// of its codes are those of the group of that code.
proof fn lemma_group_targets(
    columns: Seq<Seq<u32>>,
    partition: Seq<usize>,
    attribute: usize,
    target: usize,
    code: u32,
)
    ensures
        crate::entropy::codes_of(pairs_over(columns, partition, attribute, target)) == gather(
            columns[attribute as int],
            partition,
        ),
        crate::entropy::targets_of(pairs_over(columns, partition, attribute, target), code)
            == gather(
            columns[target as int],
            members(partition, gather(columns[attribute as int], partition), code),
        ),
    decreases partition.len(),
{
    let pairs = pairs_over(columns, partition, attribute, target);
    let codes = gather(columns[attribute as int], partition);
    assert(crate::entropy::codes_of(pairs) =~= codes);
    if partition.len() > 0 {
        let front = partition.drop_last();
        lemma_group_targets(columns, front, attribute, target, code);
        assert(pairs.drop_last() =~= pairs_over(columns, front, attribute, target));
        assert(codes.drop_last() =~= gather(columns[attribute as int], front));
        let earlier = members(front, codes.drop_last(), code);
        if codes.last() == code {
            assert(gather(columns[target as int], earlier.push(partition.last())) =~= gather(
                columns[target as int],
                earlier,
            ).push(columns[target as int][partition.last() as int]));
        }
    } else {
        assert(gather(columns[target as int], Seq::<usize>::empty()) =~= Seq::<u32>::empty());
    }
}

/// Votes that are all the same are won by what they all vote for.
proof fn lemma_unanimous(votes: Seq<u32>)
    requires
        votes.len() > 0,
        uniform(votes),
    ensures
        ordered_majority(votes) == votes[0],
{
    let winner = votes[0];
    assert(votes.contains(winner));
    assert forall|x: u32| #[trigger] count(votes, x) <= count(votes, winner) && (count(votes, x)
        == count(votes, winner) ==> x <= winner) by {
        lemma_count_contains(votes, x);
        lemma_count_contains(votes, winner);
        crate::tally::lemma_count_bound(votes, x);
        lemma_count_uniform(votes, votes.len());
        if votes.contains(x) {
            let i = choose|i: int| 0 <= i < votes.len() && votes[i] == x;
            assert(votes[i] == votes[0]);
        }
    }
    crate::lemma_ordered_majority_unique(votes, winner);
}

/// In votes that are all the same, the count of what they vote for is
/// their number.
proof fn lemma_count_uniform(votes: Seq<u32>, upto: nat)
    requires
        upto <= votes.len(),
        uniform(votes),
        votes.len() > 0,
    ensures
        count(votes.take(upto as int), votes[0]) == upto,
        upto == votes.len() ==> count(votes, votes[0]) == upto,
    decreases upto,
{
    if upto > 0 {
        lemma_count_uniform(votes, (upto - 1) as nat);
        assert(votes.take(upto as int).drop_last() =~= votes.take(upto - 1));
        assert(votes.take(upto as int).last() == votes[upto - 1]);
        assert(votes[upto - 1] == votes[0]);
    }
    if upto == votes.len() {
        assert(votes.take(upto as int) =~= votes);
    }
}

/// The attribute chosen among candidates of which one determines the
/// target determines the target too: its split has no entropy, so it is
/// pure.
proof fn lemma_chosen_determines(
    columns: Seq<Seq<u32>>,
    partition: Seq<usize>,
    candidates: Seq<usize>,
    target: usize,
    c: int,
)
    requires
        0 <= c < candidates.len(),
        determines(columns, partition, candidates[c], target),
    ensures
        ({
            let chosen = candidates[best_position(
                columns,
                partition,
                target,
                candidates,
                candidates.len(),
            )];
            let codes = gather(columns[chosen as int], partition);
            forall|j: int|
                0 <= j < distinct(codes).len() ==> uniform(
                    #[trigger] gather(
                        columns[target as int],
                        members(partition, codes, distinct(codes)[j]),
                    ),
                )
        }),
{
    let at = best_position(columns, partition, target, candidates, candidates.len());
    lemma_best_position_is_first_minimum(columns, partition, target, candidates, candidates.len());
    let chosen = candidates[at];
    let given = candidates[c];
    let x = pairs_over(columns, partition, chosen, target);
    let y = pairs_over(columns, partition, given, target);
    assert(!better(columns, partition, target, given, chosen));
    assert forall|i: int, j: int|
        0 <= i < y.len() && 0 <= j < y.len() && y[i].0 == y[j].0 implies y[i].1 == y[j].1 by {
        assert(partition[i] == partition[i] && partition[j] == partition[j]);
    }
    crate::entropy::lemma_pure_split_has_no_entropy(y);
    crate::entropy::lemma_entropy_not_negative(x);
    crate::entropy::lemma_entropy_not_negative(y);
    let (nx, dx) = (split_numerator(x) as int, split_denominator(x) as int);
    let (ny, dy) = (split_numerator(y) as int, split_denominator(y) as int);
    assert(nx <= dx) by (nonlinear_arith)
        requires
            nx * dy <= ny * dx,
            ny == dy,
            dy > 0,
    ;
    crate::entropy::lemma_no_entropy_is_pure(x);
    let codes = gather(columns[chosen as int], partition);
    assert forall|j: int| 0 <= j < distinct(codes).len() implies uniform(
        #[trigger] gather(columns[target as int], members(partition, codes, distinct(codes)[j])),
    ) by {
        lemma_group_targets(columns, partition, chosen, target, distinct(codes)[j]);
        let votes = gather(
            columns[target as int],
            members(partition, codes, distinct(codes)[j]),
        );
        assert(!crate::entropy::mixed(
            crate::entropy::targets_of(x, distinct(crate::entropy::codes_of(x))[j]),
        ));
        assert forall|i: int| 0 <= i < votes.len() implies #[trigger] votes[i] == votes[0] by {
            if votes[i] != votes[0] {
                assert(crate::entropy::mixed(votes));
            }
        }
    }
}

/// The place of an instance of the partition among the members of the
/// group of its code.
proof fn lemma_member_of_group(partition: Seq<usize>, codes: Seq<u32>, i: int)
    requires
        partition.len() == codes.len(),
        0 <= i < partition.len(),
    ensures
        members(partition, codes, codes[i]).contains(partition[i]),
    decreases partition.len(),
{
    let group = members(partition, codes, codes[i]);
    if i == partition.len() - 1 {
        assert(group[group.len() - 1] == partition[i]);
    } else {
        lemma_member_of_group(partition.drop_last(), codes.drop_last(), i);
        let earlier = members(partition.drop_last(), codes.drop_last(), codes[i]);
        let k = choose|k: int| 0 <= k < earlier.len() && earlier[k] == partition[i];
        assert(group[k] == partition[i]);
    }
}

/// A training set in which one candidate attribute determines the target
/// gives a node of depth one at most: every child is a leaf, and every
/// instance of the partition is answered with its own target code.
pub proof fn lemma_determined_target(
    columns: Seq<Seq<u32>>,
    partition: Seq<usize>,
    candidates: Seq<usize>,
    target: usize,
    key: u32,
    value: u32,
    c: int,
)
    requires
        rectangular(columns),
        target < columns.len(),
        within(partition, instance_count(columns)),
        forall|i: int| 0 <= i < candidates.len() ==> #[trigger] candidates[i] < columns.len(),
        0 <= c < candidates.len(),
        determines(columns, partition, candidates[c], target),
    ensures
        ({
            let tree = grow(columns, partition, candidates, target, key, value);
            &&& tree is Internal
            &&& forall|j: int|
                0 <= j < tree->Internal_children.len() ==> (#[trigger] tree->Internal_children[j]) is Leaf
            &&& tree.depth() <= 1
            &&& forall|i: int|
                0 <= i < partition.len() ==> tree.answer(row(columns, #[trigger] partition[i] as int))
                    == columns[target as int][partition[i] as int]
        }),
{
    let tree = grow(columns, partition, candidates, target, key, value);
    let at = best_position(columns, partition, target, candidates, candidates.len());
    lemma_best_position_bounds(columns, partition, target, candidates, candidates.len());
    let chosen = candidates[at];
    let codes = gather(columns[chosen as int], partition);
    let rest = without(candidates, at);
    let children = tree->Internal_children;
    let goal = columns[target as int];
    lemma_chosen_determines(columns, partition, candidates, target, c);
    lemma_distinct(codes);
    lemma_grow_keys(columns, partition, candidates, target, key, value);
    assert forall|j: int| 0 <= j < children.len() implies (#[trigger] children[j]) is Leaf
        && children[j].value() == gather(goal, members(partition, codes, distinct(codes)[j]))[0]
        && children[j].depth() == 0 by {
        let group = members(partition, codes, distinct(codes)[j]);
        let votes = gather(goal, group);
        assert(uniform(votes));
        lemma_members(partition, codes, distinct(codes)[j]);
        assert(distinct(codes).contains(distinct(codes)[j]));
        lemma_count_contains(codes, distinct(codes)[j]);
        lemma_unanimous(votes);
    }
    lemma_deepest_of_leaves(children, children.len());
    assert forall|i: int| 0 <= i < partition.len() implies tree.answer(
        row(columns, #[trigger] partition[i] as int),
    ) == goal[partition[i] as int] by {
        let instance = row(columns, partition[i] as int);
        let code = codes[i];
        assert(columns[chosen as int].len() == instance_count(columns));
        assert(instance[chosen as int] == code);
        assert(codes.contains(code));
        assert(distinct(codes).contains(code));
        lemma_first_index(keys_of(children), code);
        let next = first_index(keys_of(children), code);
        assert(keys_of(children).contains(code));
        assert(0 <= next < children.len());
        assert(distinct(codes)[next] == code);
        let group = members(partition, codes, code);
        let votes = gather(goal, group);
        lemma_member_of_group(partition, codes, i);
        let k = choose|k: int| 0 <= k < group.len() && group[k] == partition[i];
        assert(uniform(votes));
        assert(votes[k] == votes[0]);
        assert(votes[k] == goal[partition[i] as int]);
        assert(children[next] is Leaf);
        assert(children[next].value() == votes[0]);
        assert(children[next].answer(instance) == children[next].value());
        assert(tree->Internal_category == chosen);
        assert(chosen < instance.len());
        assert(tree.answer(instance) == children[next].answer(instance));
    }
}

/// Leaves lie at depth zero.
proof fn lemma_deepest_of_leaves(children: Seq<Tree>, upto: nat)
    requires
        upto <= children.len(),
        forall|j: int| 0 <= j < children.len() ==> (#[trigger] children[j]).depth() == 0,
    ensures
        deepest(children, upto) == 0,
    decreases upto,
{
    if upto > 0 {
        lemma_deepest_of_leaves(children, (upto - 1) as nat);
    }
}

/// A data set in which an attribute other than the target determines the
/// target induces a tree of depth one at most, whose leaves answer every
/// instance of the data set with the instance's own target code.
pub proof fn lemma_induced_by_determining_attribute(
    columns: Seq<Seq<u32>>,
    target: usize,
    attribute: usize,
)
    requires
        rectangular(columns),
        columns.len() <= usize::MAX,
        instance_count(columns) <= usize::MAX,
        target < columns.len(),
        attribute < columns.len(),
        attribute != target,
        determines(columns, all_instances(instance_count(columns)), attribute, target),
    ensures
        induced(columns, target).depth() <= 1,
        forall|i: int|
            0 <= i < instance_count(columns) ==> induced(columns, target).answer(
                #[trigger] row(columns, i),
            ) == columns[target as int][i],
{
    let candidates = all_but(columns.len(), target);
    let everyone = all_instances(instance_count(columns));
    let c: int = if attribute < target {
        attribute as int
    } else {
        attribute - 1
    };
    assert(candidates[c] == attribute);
    lemma_determined_target(
        columns,
        everyone,
        candidates,
        target,
        0,
        ordered_majority(columns[target as int]),
        c,
    );
    assert forall|i: int| 0 <= i < instance_count(columns) implies induced(columns, target).answer(
        #[trigger] row(columns, i),
    ) == columns[target as int][i] by {
        assert(everyone[i] == i);
    }
}

/// `instance` is an instance of the partition whose code is `code`.
pub open spec fn has_code(
    partition: Seq<usize>,
    codes: Seq<u32>,
    instance: usize,
    code: u32,
) -> bool {
    exists|i: int| 0 <= i < partition.len() && partition[i] == instance && codes[i] == code
}

/// The groups into which the codes of an attribute split a partition are
/// made of instances of the partition with the group's code; every instance
/// lies in the group of its code; and where no instance occurs twice in the
/// partition, no instance lies in two groups.
pub proof fn lemma_groups_split_the_partition(partition: Seq<usize>, codes: Seq<u32>)
    requires
        partition.len() == codes.len(),
    ensures
        forall|code: u32, k: int|
            0 <= k < members(partition, codes, code).len() ==> has_code(
                partition,
                codes,
                #[trigger] members(partition, codes, code)[k],
                code,
            ),
        forall|i: int|
            0 <= i < partition.len() ==> members(partition, codes, #[trigger] codes[i]).contains(
                partition[i],
            ),
        partition.no_duplicates() ==> forall|first: u32, second: u32, instance: usize|
            first != second && #[trigger] members(partition, codes, first).contains(instance)
                ==> !(#[trigger] members(partition, codes, second).contains(instance)),
{
    assert forall|code: u32, k: int| 0 <= k < members(partition, codes, code).len() implies has_code(
        partition,
        codes,
        #[trigger] members(partition, codes, code)[k],
        code,
    ) by {
        lemma_member_has_code(partition, codes, code, k);
    }
    assert forall|i: int| 0 <= i < partition.len() implies members(
        partition,
        codes,
        #[trigger] codes[i],
    ).contains(partition[i]) by {
        lemma_member_of_group(partition, codes, i);
    }
    if partition.no_duplicates() {
        assert forall|first: u32, second: u32, instance: usize|
            first != second && #[trigger] members(partition, codes, first).contains(
                instance,
            ) implies !(#[trigger] members(partition, codes, second).contains(instance)) by {
            if members(partition, codes, second).contains(instance) {
                let a = choose|a: int|
                    0 <= a < members(partition, codes, first).len() && members(
                        partition,
                        codes,
                        first,
                    )[a] == instance;
                let b = choose|b: int|
                    0 <= b < members(partition, codes, second).len() && members(
                        partition,
                        codes,
                        second,
                    )[b] == instance;
                lemma_member_has_code(partition, codes, first, a);
                lemma_member_has_code(partition, codes, second, b);
                let i = choose|i: int|
                    0 <= i < partition.len() && partition[i] == instance && codes[i] == first;
                let j = choose|j: int|
                    0 <= j < partition.len() && partition[j] == instance && codes[j] == second;
                assert(i == j);
            }
        }
    }
}

/// A member of a group is an instance of the partition that has the
/// group's code.
proof fn lemma_member_has_code(partition: Seq<usize>, codes: Seq<u32>, code: u32, k: int)
    requires
        partition.len() == codes.len(),
        0 <= k < members(partition, codes, code).len(),
    ensures
        has_code(partition, codes, members(partition, codes, code)[k], code),
    decreases partition.len(),
{
    let group = members(partition, codes, code);
    let earlier = members(partition.drop_last(), codes.drop_last(), code);
    if k < earlier.len() {
        lemma_member_has_code(partition.drop_last(), codes.drop_last(), code, k);
        let i = choose|i: int|
            0 <= i < partition.len() - 1 && partition.drop_last()[i] == earlier[k]
                && codes.drop_last()[i] == code;
        assert(partition[i] == group[k] && codes[i] == code);
    } else {
        let last = partition.len() - 1;
        assert(partition[last] == group[k] && codes[last] == code);
    }
}

/// No path of the tree grown from a partition is longer than there are
/// candidates.
pub proof fn lemma_grow_depth(
    columns: Seq<Seq<u32>>,
    partition: Seq<usize>,
    candidates: Seq<usize>,
    target: usize,
    key: u32,
    value: u32,
)
    ensures
        grow(columns, partition, candidates, target, key, value).depth() <= candidates.len(),
    decreases candidates.len(), 0nat,
{
    if candidates.len() > 0 {
        let tree = grow(columns, partition, candidates, target, key, value);
        let chosen = best_position(columns, partition, target, candidates, candidates.len());
        let attribute = candidates[chosen];
        let codes = gather(columns[attribute as int], partition);
        let rest = without(candidates, chosen);
        let children = tree->Internal_children;
        assert forall|j: int| 0 <= j < children.len() implies (#[trigger] children[j]).depth()
            <= candidates.len() - 1 by {
            lemma_branch_depth(
                columns,
                members(partition, codes, distinct(codes)[j]),
                rest,
                target,
                distinct(codes)[j],
            );
        }
        lemma_deepest_bound(children, children.len(), (candidates.len() - 1) as nat);
    }
}

/// No path of the child grown from a partition is longer than there are
/// candidates.
pub proof fn lemma_branch_depth(
    columns: Seq<Seq<u32>>,
    partition: Seq<usize>,
    candidates: Seq<usize>,
    target: usize,
    key: u32,
)
    ensures
        branch(columns, partition, candidates, target, key).depth() <= candidates.len(),
    decreases candidates.len(), 1nat,
{
    let votes = gather(columns[target as int], partition);
    if candidates.len() > 0 && !uniform(votes) {
        lemma_grow_depth(columns, partition, candidates, target, key, ordered_majority(votes));
    }
}

/// Children of at most a given depth are, taken together, no deeper.
proof fn lemma_deepest_bound(children: Seq<Tree>, upto: nat, bound: nat)
    requires
        upto <= children.len(),
        forall|j: int| 0 <= j < children.len() ==> (#[trigger] children[j]).depth() <= bound,
    ensures
        deepest(children, upto) <= bound,
    decreases upto,
{
    if upto > 0 {
        lemma_deepest_bound(children, (upto - 1) as nat, bound);
    }
}

} // verus!
