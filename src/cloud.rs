use vstd::prelude::*;

verus! {

/// Groups a flat list of coordinates into consecutive triples, one per point.
pub fn position_triples<T: Copy>(slice: &[T]) -> (r: Vec<[T; 3]>)
    requires
        slice@.len() % 3 == 0,
    ensures
        r@.len() * 3 == slice@.len(),
        forall|k: int|
            0 <= k < r@.len() ==> (#[trigger] r@[k])@ == seq![
                slice@[3 * k],
                slice@[3 * k + 1],
                slice@[3 * k + 2],
            ],
{
    let n = slice.len();
    let mut triples: Vec<[T; 3]> = Vec::new();
    let mut i: usize = 0;
    while i < n
        invariant
            i <= n,
            n == slice@.len(),
            n % 3 == 0,
            i % 3 == 0,
            triples@.len() * 3 == i,
            forall|k: int|
                0 <= k < triples@.len() ==> (#[trigger] triples@[k])@ == seq![
                    slice@[3 * k],
                    slice@[3 * k + 1],
                    slice@[3 * k + 2],
                ],
        decreases n - i,
    {
        let t = [slice[i], slice[i + 1], slice[i + 2]];
        triples.push(t);
        i += 3;
        assert(t@ =~= seq![slice@[i - 3], slice@[i - 2], slice@[i - 1]]);
    }
    triples
}

} // verus!
