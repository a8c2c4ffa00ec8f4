use vstd::prelude::*;
use vstd::seq_lib::{to_multiset_contains, to_multiset_len};
use rand::Rng;

verus! {

/// The layout of a bounding-volume hierarchy over numbered primitives: which
/// primitive ends up under which node. The boxes themselves are added by
/// whoever owns the primitives.
#[derive(Debug)]
pub enum BvhPlan {
    /// A node over a single primitive, which is both of its children.
    Leaf { item: usize },
    /// A node over two primitives, one on each side.
    Pair { first: usize, second: usize },
    /// A node over three primitives or more, split along `axis`.
    Split { axis: usize, left: Box<BvhPlan>, right: Box<BvhPlan> },
}

/// Where the box of primitive `item` begins along `axis`. The keys are
/// integers that are ordered as the coordinates are.
pub open spec fn key_of(keys: Seq<[i64; 3]>, item: usize, axis: usize) -> i64 {
    keys[item as int][axis as int]
}

/// The order of pairs: by the first part, and by the second where the first
/// parts are equal.
pub open spec fn pair_le(a: (i64, usize), b: (i64, usize)) -> bool {
    a.0 < b.0 || (a.0 == b.0 && a.1 <= b.1)
}

/// Whether primitive `a` is placed before primitive `b` when `items` is
/// ordered along `axis`: by key, and by the place in `items` between equal
/// keys.
pub open spec fn comes_before(
    keys: Seq<[i64; 3]>,
    items: Seq<usize>,
    axis: usize,
    a: usize,
    b: usize,
) -> bool {
    key_of(keys, a, axis) < key_of(keys, b, axis) || (key_of(keys, a, axis) == key_of(
        keys,
        b,
        axis,
    ) && items.index_of(a) < items.index_of(b))
}

/// Whether `out` is `items` ordered along `axis`.
pub open spec fn ordered_along(
    keys: Seq<[i64; 3]>,
    items: Seq<usize>,
    axis: usize,
    out: Seq<usize>,
) -> bool {
    &&& out.len() == items.len()
    &&& forall|j: int| 0 <= j < out.len() ==> items.contains(#[trigger] out[j])
    &&& forall|i: int, j: int|
        0 <= i < j < out.len() ==> comes_before(keys, items, axis, #[trigger] out[i], #[trigger] out[j])
}

/// Whether every element of `items` numbers one of the `count` primitives.
pub open spec fn all_below(items: Seq<usize>, count: int) -> bool {
    forall|i: int| 0 <= i < items.len() ==> #[trigger] items[i] < count
}

/// Draws an axis with rand's `Rng::gen_range(0..=2)` on the thread's
/// generator. Trusted: the result lies in the range asked for.
#[verifier::external_body]
fn random_axis() -> (axis: usize)
    ensures
        axis <= 2,
{
    rand::thread_rng().gen_range(0..=2)
}

/// Sorts with std's `sort` on slices. Trusted: the result holds the same
/// pairs as before, in ascending order, where pairs are ordered by their
/// first part and then by their second.
#[verifier::external_body]
fn sort_pairs(v: &mut Vec<(i64, usize)>)
    ensures
        final(v)@.to_multiset() == old(v)@.to_multiset(),
        forall|i: int, j: int|
            0 <= i < j < final(v)@.len() ==> pair_le(#[trigger] final(v)@[i], #[trigger] final(v)@[j]),
{
    v.sort();
}

/// Orders `items` along `axis` and cuts the result in the middle. The first
/// half takes the smaller keys and, of an odd number, the smaller share.
pub fn split_along(keys: &Vec<[i64; 3]>, items: &Vec<usize>, axis: usize) -> (halves: (
    Vec<usize>,
    Vec<usize>,
))
    requires
        axis <= 2,
        items@.no_duplicates(),
        all_below(items@, keys@.len() as int),
    ensures
        halves.0@.len() == items@.len() / 2,
        ordered_along(keys@, items@, axis, halves.0@ + halves.1@),
{
    let n: usize = items.len();
    let mut pairs: Vec<(i64, usize)> = Vec::new();
    let mut j: usize = 0;
    while j < n
        invariant
            j <= n,
            n == items@.len(),
            axis <= 2,
            all_below(items@, keys@.len() as int),
            pairs@.len() == j,
            forall|k: int|
                0 <= k < j ==> #[trigger] pairs@[k] == (
                    key_of(keys@, items@[k], axis),
                    k as usize,
                ),
        decreases n - j,
    {
        let item: usize = items[j];
        let key: i64 = keys[item][axis];
        pairs.push((key, j));
        j = j + 1;
    }
    let ghost unsorted = pairs@;
    sort_pairs(&mut pairs);
    proof {
        to_multiset_len(unsorted);
        to_multiset_len(pairs@);
        assert forall|k: int| 0 <= k < n implies (#[trigger] pairs@[k]).1 < n && pairs@[k].0
            == key_of(keys@, items@[pairs@[k].1 as int], axis) by {
            let x = pairs@[k];
            assert(pairs@.contains(x));
            to_multiset_contains(pairs@, x);
            to_multiset_contains(unsorted, x);
            let p = choose|p: int| 0 <= p < unsorted.len() && unsorted[p] == x;
            assert(unsorted[p] == x);
        }
        assert(unsorted.no_duplicates());
        unsorted.lemma_multiset_has_no_duplicates();
        pairs@.lemma_multiset_has_no_duplicates_conv();
    }
    let mid: usize = n / 2;
    let mut left: Vec<usize> = Vec::new();
    let mut right: Vec<usize> = Vec::new();
    let mut i: usize = 0;
    while i < mid
        invariant
            i <= mid <= n,
            n == items@.len(),
            pairs@.len() == n,
            forall|k: int| 0 <= k < n ==> (#[trigger] pairs@[k]).1 < n,
            left@.len() == i,
            forall|k: int| 0 <= k < i ==> #[trigger] left@[k] == items@[pairs@[k].1 as int],
        decreases mid - i,
    {
        let place: usize = pairs[i].1;
        left.push(items[place]);
        i = i + 1;
    }
    while i < n
        invariant
            mid <= i <= n,
            n == items@.len(),
            pairs@.len() == n,
            forall|k: int| 0 <= k < n ==> (#[trigger] pairs@[k]).1 < n,
            right@.len() == i - mid,
            forall|k: int|
                0 <= k < i - mid ==> #[trigger] right@[k] == items@[pairs@[mid + k].1 as int],
        decreases n - i,
    {
        let place: usize = pairs[i].1;
        right.push(items[place]);
        i = i + 1;
    }
    proof {
        let out = left@ + right@;
        assert forall|k: int| 0 <= k < n implies #[trigger] out[k] == items@[pairs@[k].1 as int] by {
            if k >= mid {
                assert(out[k] == right@[k - mid]);
            }
        }
        assert forall|a: int, b: int| 0 <= a < b < out.len() implies comes_before(
            keys@,
            items@,
            axis,
            #[trigger] out[a],
            #[trigger] out[b],
        ) by {
            assert(pair_le(pairs@[a], pairs@[b]));
            let pa = pairs@[a].1 as int;
            let pb = pairs@[b].1 as int;
            assert(items@[pa] == out[a] && items@[pb] == out[b]);
            assert(items@.index_of(out[a]) == pa);
            assert(items@.index_of(out[b]) == pb);
            assert(pairs@[a] != pairs@[b]);
        }
    }
    (left, right)
}

impl BvhPlan {
    /// The primitives under the node, from left to right.
    pub open spec fn leaves(&self) -> Seq<usize>
        decreases self,
    {
        match self {
            BvhPlan::Leaf { item } => seq![*item],
            BvhPlan::Pair { first, second } => seq![*first, *second],
            BvhPlan::Split { axis, left, right } => left.leaves() + right.leaves(),
        }
    }

    /// The primitives under the node, from left to right.
    pub fn items(&self) -> (list: Vec<usize>)
        ensures
            list@ == self.leaves(),
        decreases self,
    {
        match self {
            BvhPlan::Leaf { item } => {
                let mut list: Vec<usize> = Vec::new();
                list.push(*item);
                assert(list@ =~= seq![*item]);
                list
            },
            BvhPlan::Pair { first, second } => {
                let mut list: Vec<usize> = Vec::new();
                list.push(*first);
                list.push(*second);
                assert(list@ =~= seq![*first, *second]);
                list
            },
            BvhPlan::Split { axis, left, right } => {
                let mut list = left.items();
                let mut rest = right.items();
                list.append(&mut rest);
                list
            },
        }
    }

    /// Whether every node over three primitives or more is split along one of
    /// the three axes, gives its left side the smaller half, and has no key
    /// on the left that is larger than a key on the right.
    pub open spec fn well_split(&self, keys: Seq<[i64; 3]>) -> bool
        decreases self,
    {
        match self {
            BvhPlan::Leaf { item } => true,
            BvhPlan::Pair { first, second } => true,
            BvhPlan::Split { axis, left, right } => {
                &&& *axis <= 2
                &&& left.leaves().len() + right.leaves().len() >= 3
                &&& left.leaves().len() == (left.leaves().len() + right.leaves().len()) / 2
                &&& forall|a: int, b: int|
                    0 <= a < left.leaves().len() && 0 <= b < right.leaves().len() ==> key_of(
                        keys,
                        #[trigger] left.leaves()[a],
                        *axis,
                    ) <= key_of(keys, #[trigger] right.leaves()[b], *axis)
                &&& left.well_split(keys)
                &&& right.well_split(keys)
            },
        }
    }

    /// Whether the node is what `items` asks for: a leaf for one primitive, a
    /// pair for two in their order, a split for more.
    pub open spec fn shaped_for(&self, items: Seq<usize>) -> bool {
        match self {
            BvhPlan::Leaf { item } => items == seq![*item],
            BvhPlan::Pair { first, second } => items == seq![*first, *second],
            BvhPlan::Split { axis, left, right } => items.len() >= 3,
        }
    }

    /// Whether the node is what the construction gives for `items` with the
    /// axes that the node records: a leaf for one primitive, a pair for two
    /// in their order, and for more a split whose sides are built in the same
    /// way from the two halves of `items` ordered along the node's axis.
    pub open spec fn follows(&self, keys: Seq<[i64; 3]>, items: Seq<usize>) -> bool
        decreases self,
    {
        match self {
            BvhPlan::Leaf { item } => items == seq![*item],
            BvhPlan::Pair { first, second } => items == seq![*first, *second],
            BvhPlan::Split { axis, left, right } => {
                &&& items.len() >= 3
                &&& *axis <= 2
                &&& exists|out: Seq<usize>|
                    {
                        &&& ordered_along(keys, items, *axis, out)
                        &&& left.follows(keys, #[trigger] out.take(items.len() as int / 2))
                        &&& right.follows(keys, out.skip(items.len() as int / 2))
                    }
            },
        }
    }

    /// Whether the node's leaves are the elements of `items`, each once.
    pub open spec fn arranges(&self, items: Seq<usize>) -> bool {
        &&& self.leaves().len() == items.len()
        &&& self.leaves().no_duplicates()
        &&& forall|x: usize| self.leaves().contains(x) <==> items.contains(x)
    }

    /// Lays out a hierarchy over the primitives that `items` numbers. A node
    /// over three or more orders them along an axis drawn at random and
    /// hands one half to each side.
    pub fn over(keys: &Vec<[i64; 3]>, items: Vec<usize>) -> (plan: BvhPlan)
        requires
            items@.len() >= 1,
            items@.no_duplicates(),
            all_below(items@, keys@.len() as int),
        ensures
            plan.follows(keys@, items@),
            plan.shaped_for(items@),
            plan.arranges(items@),
            plan.well_split(keys@),
        decreases items@.len(),
    {
        let n: usize = items.len();
        if n == 1 {
            let plan = BvhPlan::Leaf { item: items[0] };
            proof {
                assert(items@ =~= seq![items@[0]]);
            }
            return plan;
        }
        if n == 2 {
            let plan = BvhPlan::Pair { first: items[0], second: items[1] };
            proof {
                assert(items@ =~= seq![items@[0], items@[1]]);
            }
            return plan;
        }
        let axis: usize = random_axis();
        let (left_items, right_items) = split_along(keys, &items, axis);
        let ghost out = left_items@ + right_items@;
        let ghost mid = left_items@.len() as int;
        proof {
            assert forall|k: int| 0 <= k < mid implies #[trigger] left_items@[k] == out[k] by {}
            assert forall|k: int| 0 <= k < right_items@.len() implies #[trigger] right_items@[k]
                == out[mid + k] by {}
            assert(left_items@.no_duplicates()) by {
                assert forall|a: int, b: int|
                    0 <= a < left_items@.len() && 0 <= b < left_items@.len() && a != b implies left_items@[a]
                    != left_items@[b] by {
                    lemma_ordered_distinct(keys@, items@, axis, out, a, b);
                }
            }
            assert(right_items@.no_duplicates()) by {
                assert forall|a: int, b: int|
                    0 <= a < right_items@.len() && 0 <= b < right_items@.len() && a != b implies right_items@[a]
                    != right_items@[b] by {
                    lemma_ordered_distinct(keys@, items@, axis, out, mid + a, mid + b);
                }
            }
            assert(all_below(left_items@, keys@.len() as int)) by {
                assert forall|k: int| 0 <= k < left_items@.len() implies #[trigger] left_items@[k]
                    < keys@.len() by {
                    assert(items@.contains(out[k]));
                }
            }
            assert(all_below(right_items@, keys@.len() as int)) by {
                assert forall|k: int| 0 <= k < right_items@.len() implies #[trigger] right_items@[k]
                    < keys@.len() by {
                    assert(items@.contains(out[mid + k]));
                }
            }
        }
        let left = BvhPlan::over(keys, left_items);
        let right = BvhPlan::over(keys, right_items);
        let plan = BvhPlan::Split { axis, left: Box::new(left), right: Box::new(right) };
        proof {
            assert(out.take(items@.len() as int / 2) =~= left_items@);
            assert(out.skip(items@.len() as int / 2) =~= right_items@);
            let ll = left.leaves();
            let rl = right.leaves();
            assert(plan.leaves() == ll + rl);
            lemma_ordered_covers(keys@, items@, axis, out);
            assert forall|x: usize| (ll + rl).contains(x) <==> items@.contains(x) by {
                if (ll + rl).contains(x) {
                    let k = choose|k: int| 0 <= k < (ll + rl).len() && (ll + rl)[k] == x;
                    if k < ll.len() {
                        assert(ll.contains(ll[k]));
                        assert(left_items@.contains(x));
                    } else {
                        assert(rl.contains(rl[k - ll.len()]));
                        assert(right_items@.contains(x));
                    }
                    let m = choose|m: int| 0 <= m < out.len() && out[m] == x;
                    assert(items@.contains(out[m]));
                }
                if items@.contains(x) {
                    assert(out.contains(x));
                    let m = choose|m: int| 0 <= m < out.len() && out[m] == x;
                    if m < mid {
                        assert(left_items@[m] == x);
                        assert(left_items@.contains(x));
                        assert(ll.contains(x));
                        let k = choose|k: int| 0 <= k < ll.len() && ll[k] == x;
                        assert((ll + rl)[k] == x);
                    } else {
                        assert(right_items@[m - mid] == x);
                        assert(right_items@.contains(x));
                        assert(rl.contains(x));
                        let k = choose|k: int| 0 <= k < rl.len() && rl[k] == x;
                        assert((ll + rl)[ll.len() + k] == x);
                    }
                }
            }
            assert((ll + rl).no_duplicates()) by {
                assert forall|a: int, b: int|
                    0 <= a < (ll + rl).len() && 0 <= b < (ll + rl).len() && a != b implies (ll
                    + rl)[a] != (ll + rl)[b] by {
                    if a < ll.len() && b >= ll.len() {
                        lemma_halves_apart(keys@, items@, axis, left_items@, right_items@, ll[a], rl[b - ll.len()]);
                        assert(ll.contains(ll[a]));
                        assert(rl.contains(rl[b - ll.len()]));
                    } else if b < ll.len() && a >= ll.len() {
                        lemma_halves_apart(keys@, items@, axis, left_items@, right_items@, ll[b], rl[a - ll.len()]);
                        assert(ll.contains(ll[b]));
                        assert(rl.contains(rl[a - ll.len()]));
                    }
                }
            }
            assert forall|a: int, b: int| 0 <= a < ll.len() && 0 <= b < rl.len() implies key_of(
                keys@,
                #[trigger] ll[a],
                axis,
            ) <= key_of(keys@, #[trigger] rl[b], axis) by {
                assert(ll.contains(ll[a]));
                assert(rl.contains(rl[b]));
                lemma_halves_apart(keys@, items@, axis, left_items@, right_items@, ll[a], rl[b]);
            }
        }
        plan
    }

    /// Lays out a hierarchy over the primitives `0`, `1`, ... whose keys are
    /// given. Every primitive becomes a leaf, once.
    pub fn new(keys: &Vec<[i64; 3]>) -> (plan: BvhPlan)
        requires
            keys@.len() >= 1,
        ensures
            plan.follows(keys@, Seq::new(keys@.len(), |i: int| i as usize)),
            plan.leaves().len() == keys@.len(),
            plan.leaves().no_duplicates(),
            forall|k: usize| 0 <= k < keys@.len() <==> plan.leaves().contains(k),
            plan.well_split(keys@),
            keys@.len() == 1 ==> plan == (BvhPlan::Leaf { item: 0 }),
            keys@.len() == 2 ==> plan == (BvhPlan::Pair { first: 0, second: 1 }),
            keys@.len() >= 3 ==> plan is Split,
    {
        let n: usize = keys.len();
        let mut items: Vec<usize> = Vec::new();
        let mut i: usize = 0;
        while i < n
            invariant
                i <= n,
                n == keys@.len(),
                items@.len() == i,
                forall|k: int| 0 <= k < i ==> #[trigger] items@[k] == k,
            decreases n - i,
        {
            items.push(i);
            i = i + 1;
        }
        let ghost all = items@;
        let plan = BvhPlan::over(keys, items);
        proof {
            assert(all =~= Seq::new(keys@.len(), |i: int| i as usize));
            if plan is Leaf {
                assert(seq![plan->item][0] == all[0]);
            }
            if plan is Pair {
                assert(seq![plan->first, plan->second][0] == all[0]);
                assert(seq![plan->first, plan->second][1] == all[1]);
            }
            assert forall|k: usize| 0 <= k < keys@.len() <==> plan.leaves().contains(k) by {
                if k < keys@.len() {
                    assert(all[k as int] == k);
                    assert(all.contains(k));
                }
                if plan.leaves().contains(k) {
                    assert(all.contains(k));
                }
            }
        }
        plan
    }
}

proof fn lemma_ordered_distinct(
    keys: Seq<[i64; 3]>,
    items: Seq<usize>,
    axis: usize,
    out: Seq<usize>,
    a: int,
    b: int,
)
    requires
        ordered_along(keys, items, axis, out),
        0 <= a < out.len(),
        0 <= b < out.len(),
        a != b,
    ensures
        out[a] != out[b],
{
    if a < b {
        assert(comes_before(keys, items, axis, out[a], out[b]));
    } else {
        assert(comes_before(keys, items, axis, out[b], out[a]));
    }
}

/// An ordering of a list without repetitions leaves none of its elements out.
proof fn lemma_ordered_covers(keys: Seq<[i64; 3]>, items: Seq<usize>, axis: usize, out: Seq<usize>)
    requires
        ordered_along(keys, items, axis, out),
        items.no_duplicates(),
    ensures
        forall|x: usize| items.contains(x) ==> out.contains(x),
{
    assert(out.no_duplicates()) by {
        assert forall|a: int, b: int| 0 <= a < out.len() && 0 <= b < out.len() && a != b implies out[a]
            != out[b] by {
            lemma_ordered_distinct(keys, items, axis, out, a, b);
        }
    }
    out.unique_seq_to_set();
    items.unique_seq_to_set();
    assert(out.to_set().subset_of(items.to_set())) by {
        assert forall|x: usize| out.to_set().contains(x) implies items.to_set().contains(x) by {
            let k = choose|k: int| 0 <= k < out.len() && out[k] == x;
            assert(items.contains(out[k]));
        }
    }
    vstd::set_lib::lemma_subset_equality(out.to_set(), items.to_set());
    assert forall|x: usize| items.contains(x) implies out.contains(x) by {
        assert(items.to_set().contains(x));
        assert(out.to_set().contains(x));
    }
}

proof fn lemma_halves_apart(
    keys: Seq<[i64; 3]>,
    items: Seq<usize>,
    axis: usize,
    left: Seq<usize>,
    right: Seq<usize>,
    a: usize,
    b: usize,
)
    requires
        ordered_along(keys, items, axis, left + right),
        left.contains(a),
        right.contains(b),
    ensures
        a != b,
        key_of(keys, a, axis) <= key_of(keys, b, axis),
{
    let out = left + right;
    let i = choose|i: int| 0 <= i < left.len() && left[i] == a;
    let j = choose|j: int| 0 <= j < right.len() && right[j] == b;
    assert(out[i] == a);
    assert(out[left.len() + j] == b);
    assert(comes_before(keys, items, axis, out[i], out[left.len() + j]));
}

/// Whether `a` comes before `b` for every `a` that stands before `b` in `s`.
pub open spec fn in_order(keys: Seq<[i64; 3]>, items: Seq<usize>, axis: usize, s: Seq<usize>) -> bool {
    forall|i: int, j: int|
        0 <= i < j < s.len() ==> comes_before(keys, items, axis, #[trigger] s[i], #[trigger] s[j])
}

proof fn lemma_in_order_is_unique(
    keys: Seq<[i64; 3]>,
    items: Seq<usize>,
    axis: usize,
    a: Seq<usize>,
    b: Seq<usize>,
)
    requires
        in_order(keys, items, axis, a),
        in_order(keys, items, axis, b),
        forall|x: usize| a.contains(x) <==> b.contains(x),
    ensures
        a == b,
    decreases a.len(),
{
    if a.len() == 0 {
        if b.len() > 0 {
            assert(b.contains(b[0]));
        }
        assert(a =~= b);
    } else {
        assert(a.contains(a[0]));
        assert(b.contains(a[0]));
        let j = choose|j: int| 0 <= j < b.len() && b[j] == a[0];
        assert(b.contains(b[0]));
        let i = choose|i: int| 0 <= i < a.len() && a[i] == b[0];
        if j > 0 {
            assert(comes_before(keys, items, axis, b[0], b[j]));
            if i > 0 {
                assert(comes_before(keys, items, axis, a[0], a[i]));
            }
            assert(false);
        }
        assert(a[0] == b[0]);
        let ta = a.skip(1);
        let tb = b.skip(1);
        assert forall|x: usize| ta.contains(x) <==> tb.contains(x) by {
            if ta.contains(x) {
                let k = choose|k: int| 0 <= k < ta.len() && ta[k] == x;
                assert(a[k + 1] == x);
                assert(comes_before(keys, items, axis, a[0], a[k + 1]));
                assert(a.contains(x));
                let m = choose|m: int| 0 <= m < b.len() && b[m] == x;
                assert(m > 0);
                assert(tb[m - 1] == x);
            }
            if tb.contains(x) {
                let k = choose|k: int| 0 <= k < tb.len() && tb[k] == x;
                assert(b[k + 1] == x);
                assert(comes_before(keys, items, axis, b[0], b[k + 1]));
                assert(b.contains(x));
                let m = choose|m: int| 0 <= m < a.len() && a[m] == x;
                assert(m > 0);
                assert(ta[m - 1] == x);
            }
        }
        assert(in_order(keys, items, axis, ta)) by {
            assert forall|p: int, q: int| 0 <= p < q < ta.len() implies comes_before(
                keys,
                items,
                axis,
                #[trigger] ta[p],
                #[trigger] ta[q],
            ) by {
                assert(comes_before(keys, items, axis, a[p + 1], a[q + 1]));
            }
        }
        assert(in_order(keys, items, axis, tb)) by {
            assert forall|p: int, q: int| 0 <= p < q < tb.len() implies comes_before(
                keys,
                items,
                axis,
                #[trigger] tb[p],
                #[trigger] tb[q],
            ) by {
                assert(comes_before(keys, items, axis, b[p + 1], b[q + 1]));
            }
        }
        lemma_in_order_is_unique(keys, items, axis, ta, tb);
        assert(a =~= seq![a[0]] + ta);
        assert(b =~= seq![b[0]] + tb);
    }
}

/// A list without repetitions has one order along an axis, and no other:
/// what `split_along` returns is settled by its arguments.
pub proof fn lemma_order_is_unique(
    keys: Seq<[i64; 3]>,
    items: Seq<usize>,
    axis: usize,
    a: Seq<usize>,
    b: Seq<usize>,
)
    requires
        items.no_duplicates(),
        ordered_along(keys, items, axis, a),
        ordered_along(keys, items, axis, b),
    ensures
        a == b,
{
    lemma_ordered_covers(keys, items, axis, a);
    lemma_ordered_covers(keys, items, axis, b);
    assert forall|x: usize| a.contains(x) <==> b.contains(x) by {
        if a.contains(x) {
            let k = choose|k: int| 0 <= k < a.len() && a[k] == x;
            assert(items.contains(a[k]));
        }
        if b.contains(x) {
            let k = choose|k: int| 0 <= k < b.len() && b[k] == x;
            assert(items.contains(b[k]));
        }
    }
    lemma_in_order_is_unique(keys, items, axis, a, b);
}

} // verus!
