//! Component sets: the sorted, duplicate-free id sequences that name an
//! archetype, and the step that brings a bundle into that order.
use crate::component::ErasedComponent;
use crate::decimal::{decimal_digits, push_digits};
use crate::table::strictly_increasing;
use vstd::prelude::*;
use vstd::string::StringExecFns;

verus! {

/// Why a bundle was refused.
#[derive(Debug, Clone, Copy, PartialEq, Eq, Structural)]
pub enum SpawnError {
    /// The bundle holds two components of one type: the id of that type.
    DuplicateComponent(usize),
}

impl SpawnError {
    /// The message of the error, which names the id.
    pub fn to_string(&self) -> (message: String)
        ensures
            message@ == match *self {
                SpawnError::DuplicateComponent(id) => "Component "@ + decimal_digits(id as nat)
                    + " contained multiple times in one bundle"@,
            },
    {
        match self {
            SpawnError::DuplicateComponent(id) => {
                let mut message = "Component ".to_owned();
                push_digits(&mut message, *id as u64);
                message.append(" contained multiple times in one bundle");
                message
            },
        }
    }
}

/// Whether no id occurs twice in `ids`.
pub open spec fn all_distinct(ids: Seq<usize>) -> bool {
    forall|a: int, b: int| 0 <= a < b < ids.len() ==> ids[a] != ids[b]
}

/// Whether `id` occurs at two positions of `ids`, the first of them not
/// before `from`.
pub open spec fn is_repeated_from(ids: Seq<usize>, from: int, id: usize) -> bool {
    exists|a: int, b: int| from <= a < b < ids.len() && #[trigger] ids[a] == id && #[trigger] ids[b] == id
}

/// Whether `id` occurs more than once in `ids`.
pub open spec fn is_repeated(ids: Seq<usize>, id: usize) -> bool {
    is_repeated_from(ids, 0, id)
}

/// Whether `id` is the smallest id that occurs more than once in `ids`.
pub open spec fn is_least_repeated(ids: Seq<usize>, id: usize) -> bool {
    &&& is_repeated(ids, id)
    &&& forall|other: usize| is_repeated(ids, other) ==> id <= other
}

/// Whether `set` is the component set of a bundle with the ids `ids`: the same
/// ids, in increasing order, each once.
pub open spec fn is_component_set_of(set: Seq<usize>, ids: Seq<usize>) -> bool {
    &&& strictly_increasing(set)
    &&& forall|id: usize| set.contains(id) <==> ids.contains(id)
}

/// Whether no id of `ids` is smaller than one before it.
pub open spec fn non_decreasing(ids: Seq<usize>) -> bool {
    forall|i: int, j: int| 0 <= i < j < ids.len() ==> ids[i] <= ids[j]
}

/// In a sorted sequence the first id that equals the one before it is the
/// smallest id that occurs more than once.
pub proof fn lemma_first_repeat_is_least(ids: Seq<usize>, k: int)
    requires
        non_decreasing(ids),
        0 < k < ids.len(),
        ids[k - 1] == ids[k],
        forall|j: int| 0 < j < k ==> ids[j - 1] < #[trigger] ids[j],
    ensures
        is_least_repeated(ids, ids[k]),
        !strictly_increasing(ids),
{
    assert(0 <= k - 1 < k < ids.len() && ids[k - 1] == ids[k] && ids[k] == ids[k]);
    assert(is_repeated(ids, ids[k]));
    assert forall|other: usize| is_repeated(ids, other) implies ids[k] <= other by {
        let (a, b) = choose|a: int, b: int|
            0 <= a < b < ids.len() && #[trigger] ids[a] == other && #[trigger] ids[b] == other;
        if a + 1 < k {
            assert(ids[a] < ids[a + 1]);
            assert(ids[a + 1] <= ids[b]);
        } else if a < k {
            assert(ids[k - 1] <= ids[a]);
        } else {
            assert(ids[k] <= ids[a]);
        }
    }
}

/// A sorted sequence in which no id equals the one before it is strictly
/// increasing.
pub proof fn lemma_no_repeat_is_strict(ids: Seq<usize>)
    requires
        non_decreasing(ids),
        forall|j: int| 0 < j < ids.len() ==> ids[j - 1] < #[trigger] ids[j],
    ensures
        strictly_increasing(ids),
{
    assert forall|i: int, j: int| 0 <= i < j < ids.len() implies ids[i] < ids[j] by {
        assert(ids[i] < ids[i + 1]);
        if i + 1 < j {
            assert(ids[i + 1] <= ids[j]);
        }
    }
}

/// Whether `id` stands in `ids` at some position from `from` on, paired with
/// `component` if `paired` is set.
pub open spec fn holds_pair(
    ids: Seq<usize>,
    components: Seq<ErasedComponent>,
    from: int,
    paired: bool,
    id: usize,
    component: ErasedComponent,
) -> bool {
    exists|m: int|
        from <= m < ids.len() && #[trigger] ids[m] == id && (paired ==> components[m] == component)
}

/// Whether `set` and `sorted` are the bundle `ids`, `components` brought into
/// the order of a component set: the ids increase, and every id is still
/// paired with its component.
pub open spec fn arranges(
    ids: Seq<usize>,
    components: Seq<ErasedComponent>,
    set: Seq<usize>,
    sorted: Seq<ErasedComponent>,
) -> bool {
    &&& components.len() == ids.len()
    &&& set.len() == ids.len()
    &&& arranges_from(ids, components, 0, true, set, sorted)
}

/// Whether `set` and `sorted` hold, in increasing order of the ids, what
/// `ids` and `components` hold from the position `from` on. Without `paired`
/// only the ids are meant.
pub open spec fn arranges_from(
    ids: Seq<usize>,
    components: Seq<ErasedComponent>,
    from: int,
    paired: bool,
    set: Seq<usize>,
    sorted: Seq<ErasedComponent>,
) -> bool {
    &&& strictly_increasing(set)
    &&& sorted.len() == set.len()
    &&& forall|k: int|
        from <= k < ids.len() ==> #[trigger] holds_pair(set, sorted, 0, paired, ids[k], components[k])
    &&& forall|j: int|
        0 <= j < set.len() ==> #[trigger] holds_pair(ids, components, from, paired, set[j], sorted[j])
}

/// Brings a bundle into the order of its component set: sorts `ids`, and
/// `components` along with them. A bundle in which an id occurs twice is
/// refused, with the smallest such id.
pub fn sort_components(ids: Vec<usize>, components: Vec<ErasedComponent>) -> (result: Result<
    (Vec<usize>, Vec<ErasedComponent>),
    SpawnError,
>)
    requires
        ids.len() == components.len(),
    ensures
        result is Ok <==> all_distinct(ids@),
        match result {
            Ok((set, sorted)) => arranges(ids@, components@, set@, sorted@),
            Err(SpawnError::DuplicateComponent(id)) => is_least_repeated(ids@, id),
        },
{
    let ghost all_ids = ids@;
    let ghost all = components@;
    let mut ids = ids;
    let mut components = components;
    let mut set: Vec<usize> = Vec::new();
    let mut sorted: Vec<ErasedComponent> = Vec::new();
    let mut duplicate: Option<usize> = None;
    while ids.len() > 0
        invariant
            all.len() == all_ids.len(),
            ids.len() == components.len(),
            ids@ == all_ids.take(ids.len() as int),
            components@ == all.take(ids.len() as int),
            arranges_from(all_ids, all, ids.len() as int, duplicate is None, set@, sorted@),
            duplicate is None ==> set.len() == all_ids.len() - ids.len(),
            duplicate is None ==> forall|v: usize| !is_repeated_from(all_ids, ids.len() as int, v),
            duplicate matches Some(d) ==> is_repeated_from(all_ids, ids.len() as int, d),
            duplicate matches Some(d) ==> forall|v: usize|
                is_repeated_from(all_ids, ids.len() as int, v) ==> d <= v,
        decreases ids.len(),
    {
        let ghost k = ids.len() - 1;
        let id = ids.pop().unwrap();
        let component = components.pop().unwrap();
        assert(id == all_ids[k] && component == all[k]);
        assert(ids@ =~= all_ids.take(k) && components@ =~= all.take(k));
        let mut pos: usize = 0;
        while pos < set.len() && set[pos] < id
            invariant
                pos <= set.len(),
                forall|j: int| 0 <= j < pos ==> set[j] < id,
            decreases set.len() - pos,
        {
            pos += 1;
        }
        if pos < set.len() && set[pos] == id {
            proof {
                lemma_step_repeated(all_ids, all, k, duplicate is None, set@, sorted@, pos as int);
            }
            duplicate =
            match duplicate {
                Some(d) => if d <= id {
                    Some(d)
                } else {
                    Some(id)
                },
                None => Some(id),
            };
        } else {
            proof {
                lemma_step_new(all_ids, all, k, duplicate is None, set@, sorted@, pos as int);
            }
            set.insert(pos, id);
            sorted.insert(pos, component);
        }
    }
    match duplicate {
        Some(id) => {
            proof {
                lemma_distinct_iff_none_repeated(all_ids);
            }
            Err(SpawnError::DuplicateComponent(id))
        },
        None => {
            proof {
                lemma_distinct_iff_none_repeated(all_ids);
            }
            Ok((set, sorted))
        },
    }
}

/// One step of the sort, for an id that the sorted part does not hold yet:
/// with the id put in its place the sorted part covers one position more,
/// and no new id is repeated.
proof fn lemma_step_new(
    ids: Seq<usize>,
    components: Seq<ErasedComponent>,
    k: int,
    paired: bool,
    set: Seq<usize>,
    sorted: Seq<ErasedComponent>,
    pos: int,
)
    requires
        0 <= k < ids.len(),
        components.len() == ids.len(),
        arranges_from(ids, components, k + 1, paired, set, sorted),
        0 <= pos <= set.len(),
        forall|j: int| 0 <= j < pos ==> set[j] < ids[k],
        pos < set.len() ==> set[pos] > ids[k],
    ensures
        arranges_from(
            ids,
            components,
            k,
            paired,
            set.insert(pos, ids[k]),
            sorted.insert(pos, components[k]),
        ),
        set.insert(pos, ids[k]).len() == set.len() + 1,
        forall|v: usize| is_repeated_from(ids, k, v) <==> is_repeated_from(ids, k + 1, v),
{
    let id = ids[k];
    let new_set = set.insert(pos, id);
    let new_sorted = sorted.insert(pos, components[k]);
    assert(forall|j: int| pos <= j < set.len() ==> set[j] > id);
    assert forall|m: int| k < m < ids.len() implies ids[m] != id by {
        assert(holds_pair(set, sorted, 0, paired, ids[m], components[m]));
    }
    lemma_repeated_step(ids, k);
    assert forall|m: int| k <= m < ids.len() implies #[trigger] holds_pair(
        new_set,
        new_sorted,
        0,
        paired,
        ids[m],
        components[m],
    ) by {
        if m == k {
            assert(new_set[pos] == ids[m] && new_sorted[pos] == components[m]);
        } else {
            assert(holds_pair(set, sorted, 0, paired, ids[m], components[m]));
            let j = choose|j: int|
                0 <= j < set.len() && #[trigger] set[j] == ids[m] && (paired ==> sorted[j]
                    == components[m]);
            if j < pos {
                assert(new_set[j] == ids[m] && new_sorted[j] == sorted[j]);
            } else {
                assert(new_set[j + 1] == ids[m] && new_sorted[j + 1] == sorted[j]);
            }
        }
    }
    assert forall|j: int| 0 <= j < new_set.len() implies #[trigger] holds_pair(
        ids,
        components,
        k,
        paired,
        new_set[j],
        new_sorted[j],
    ) by {
        if j == pos {
            assert(ids[k] == new_set[j] && components[k] == new_sorted[j]);
        } else {
            let i = if j < pos {
                j
            } else {
                j - 1
            };
            assert(new_set[j] == set[i] && new_sorted[j] == sorted[i]);
            assert(holds_pair(ids, components, k + 1, paired, set[i], sorted[i]));
            let m = choose|m: int|
                k + 1 <= m < ids.len() && #[trigger] ids[m] == set[i] && (paired ==> components[m]
                    == sorted[i]);
            assert(k <= m && ids[m] == new_set[j]);
        }
    }
}

/// One step of the sort, for an id that the sorted part holds already: the
/// id is repeated, and the sorted part still covers the ids.
proof fn lemma_step_repeated(
    ids: Seq<usize>,
    components: Seq<ErasedComponent>,
    k: int,
    paired: bool,
    set: Seq<usize>,
    sorted: Seq<ErasedComponent>,
    pos: int,
)
    requires
        0 <= k < ids.len(),
        arranges_from(ids, components, k + 1, paired, set, sorted),
        0 <= pos < set.len(),
        set[pos] == ids[k],
    ensures
        arranges_from(ids, components, k, false, set, sorted),
        is_repeated_from(ids, k, ids[k]),
        forall|v: usize|
            is_repeated_from(ids, k, v) <==> is_repeated_from(ids, k + 1, v) || v == ids[k],
{
    let id = ids[k];
    assert(holds_pair(ids, components, k + 1, paired, set[pos], sorted[pos]));
    let m = choose|m: int|
        k + 1 <= m < ids.len() && #[trigger] ids[m] == set[pos] && (paired ==> components[m]
            == sorted[pos]);
    assert(k <= k < m < ids.len() && ids[k] == id && ids[m] == id);
    lemma_repeated_step(ids, k);
    assert forall|m: int| k <= m < ids.len() implies #[trigger] holds_pair(
        set,
        sorted,
        0,
        false,
        ids[m],
        components[m],
    ) by {
        if m == k {
            assert(set[pos] == ids[m]);
        } else {
            assert(holds_pair(set, sorted, 0, paired, ids[m], components[m]));
            let j = choose|j: int|
                0 <= j < set.len() && #[trigger] set[j] == ids[m] && (paired ==> sorted[j]
                    == components[m]);
            assert(set[j] == ids[m]);
        }
    }
    assert forall|j: int| 0 <= j < set.len() implies #[trigger] holds_pair(
        ids,
        components,
        k,
        false,
        set[j],
        sorted[j],
    ) by {
        assert(holds_pair(ids, components, k + 1, paired, set[j], sorted[j]));
        let m = choose|m: int|
            k + 1 <= m < ids.len() && #[trigger] ids[m] == set[j] && (paired ==> components[m]
                == sorted[j]);
        assert(k <= m && ids[m] == set[j]);
    }
}

/// An id is repeated from `from` on if it is repeated later on, or stands at
/// `from` and once more after it.
proof fn lemma_repeated_step(ids: Seq<usize>, from: int)
    requires
        0 <= from < ids.len(),
    ensures
        forall|v: usize|
            is_repeated_from(ids, from, v) <==> is_repeated_from(ids, from + 1, v) || (v
                == ids[from] && exists|b: int| from < b < ids.len() && #[trigger] ids[b] == v),
{
    assert forall|v: usize|
        is_repeated_from(ids, from, v) <==> is_repeated_from(ids, from + 1, v) || (v == ids[from]
            && exists|b: int| from < b < ids.len() && #[trigger] ids[b] == v) by {
        if is_repeated_from(ids, from, v) {
            let (a, b) = choose|a: int, b: int|
                from <= a < b < ids.len() && #[trigger] ids[a] == v && #[trigger] ids[b] == v;
            if a > from {
                assert(is_repeated_from(ids, from + 1, v));
            }
        }
        if is_repeated_from(ids, from + 1, v) {
            let (a, b) = choose|a: int, b: int|
                from + 1 <= a < b < ids.len() && #[trigger] ids[a] == v && #[trigger] ids[b] == v;
            assert(from <= a < b < ids.len() && ids[a] == v && ids[b] == v);
        }
        if v == ids[from] && exists|b: int| from < b < ids.len() && #[trigger] ids[b] == v {
            let b = choose|b: int| from < b < ids.len() && #[trigger] ids[b] == v;
            assert(from <= from < b < ids.len() && ids[from] == v && ids[b] == v);
        }
    }
}

/// The ids of a bundle are all distinct exactly if none of them is repeated.
pub proof fn lemma_distinct_iff_none_repeated(ids: Seq<usize>)
    ensures
        all_distinct(ids) <==> forall|v: usize| !is_repeated(ids, v),
{
    if all_distinct(ids) {
        assert forall|v: usize| !is_repeated(ids, v) by {
            if is_repeated(ids, v) {
                let (a, b) = choose|a: int, b: int|
                    0 <= a < b < ids.len() && #[trigger] ids[a] == v && #[trigger] ids[b] == v;
                assert(ids[a] != ids[b]);
            }
        }
    }
    if forall|v: usize| !is_repeated(ids, v) {
        assert forall|a: int, b: int| 0 <= a < b < ids.len() implies ids[a] != ids[b] by {
            if ids[a] == ids[b] {
                assert(is_repeated(ids, ids[a]));
            }
        }
    }
}

} // verus!
