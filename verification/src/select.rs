use vstd::prelude::*;

verus! {

/// Whether `i` is the position of the first greatest entry of `keys`.
pub open spec fn is_first_max(keys: Seq<i64>, i: int) -> bool {
    &&& 0 <= i < keys.len()
    &&& forall|j: int| 0 <= j < keys.len() ==> keys[j] <= keys[i]
    &&& forall|j: int| 0 <= j < i ==> keys[j] < keys[i]
}

/// The position of the first greatest entry of a non-empty `keys`.
pub open spec fn first_max_index(keys: Seq<i64>) -> int
    decreases keys.len(),
{
    if keys.len() <= 1 {
        0
    } else {
        let before = first_max_index(keys.drop_last());
        if keys.last() > keys[before] {
            keys.len() - 1
        } else {
            before
        }
    }
}

/// `first_max_index` is the position of the first greatest entry.
pub proof fn lemma_first_max_index(keys: Seq<i64>)
    requires
        keys.len() > 0,
    ensures
        is_first_max(keys, first_max_index(keys)),
    decreases keys.len(),
{
    if keys.len() > 1 {
        let front = keys.drop_last();
        lemma_first_max_index(front);
        let before = first_max_index(front);
        assert(front[before] == keys[before]);
        assert forall|j: int| 0 <= j < keys.len() - 1 implies keys[j] <= keys[before] by {
            assert(front[j] == keys[j]);
        }
        assert forall|j: int| 0 <= j < before implies keys[j] < keys[before] by {
            assert(front[j] == keys[j]);
        }
    }
}

/// At most one position is that of the first greatest entry.
pub proof fn lemma_first_max_unique(keys: Seq<i64>, i: int, j: int)
    requires
        is_first_max(keys, i),
        is_first_max(keys, j),
    ensures
        i == j,
{
    if i < j {
        assert(keys[i] < keys[j]);
    }
    if j < i {
        assert(keys[j] < keys[i]);
    }
}

/// Position of the first greatest entry of `keys`, or nothing when `keys` is empty.
pub fn first_max(keys: &Vec<i64>) -> (best: Option<usize>)
    ensures
        keys@.len() == 0 <==> best.is_none(),
        best.is_some() ==> is_first_max(keys@, best.unwrap() as int),
        best.is_some() ==> best.unwrap() as int == first_max_index(keys@),
{
    if keys.len() == 0 {
        return None;
    }
    let mut best: usize = 0;
    let mut i: usize = 1;
    while i < keys.len()
        invariant
            1 <= i <= keys.len(),
            best < i,
            forall|j: int| 0 <= j < i ==> keys[j] <= keys[best as int],
            forall|j: int| 0 <= j < best ==> keys[j] < keys[best as int],
        decreases keys.len() - i,
    {
        if keys[i] > keys[best] {
            best = i;
        }
        i += 1;
    }
    proof {
        lemma_first_max_index(keys@);
        lemma_first_max_unique(keys@, best as int, first_max_index(keys@));
    }
    Some(best)
}

} // verus!
