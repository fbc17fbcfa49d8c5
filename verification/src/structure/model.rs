use vstd::prelude::*;

verus! {

/// The sequence `s` with `v` put before its first element.
pub open spec fn head_inserted<T>(s: Seq<T>, v: T) -> Seq<T> {
    seq![v] + s
}

/// The sequence `s` with `v` put after its last element.
pub open spec fn tail_inserted<T>(s: Seq<T>, v: T) -> Seq<T> {
    s.push(v)
}

/// The sequence `s` with `v` put at position `i`, before the element that
/// stood there.
pub open spec fn inserted_at<T>(s: Seq<T>, i: int, v: T) -> Seq<T>
    recommends
        0 <= i <= s.len(),
{
    s.insert(i, v)
}

/// The sequence `s` without its first element.
pub open spec fn head_deleted<T>(s: Seq<T>) -> Seq<T>
    recommends
        s.len() > 0,
{
    s.drop_first()
}

/// The sequence `s` without its last element.
pub open spec fn tail_deleted<T>(s: Seq<T>) -> Seq<T>
    recommends
        s.len() > 0,
{
    s.drop_last()
}

/// Inserting at position zero is inserting at the head, and inserting at the
/// position just past the last element is inserting at the tail.
pub proof fn lemma_insert_at_ends<T>(s: Seq<T>, v: T)
    ensures
        inserted_at(s, 0, v) == head_inserted(s, v),
        inserted_at(s, s.len() as int, v) == tail_inserted(s, v),
{
    assert(s.insert(0, v) =~= seq![v] + s);
    assert(s.insert(s.len() as int, v) =~= s.push(v));
}

/// Deleting at the end at which an element was just inserted gives back the
/// sequence as it was, and so its length, its first and its last element;
/// the element that leaves is the one that came.
pub proof fn lemma_insert_then_delete<T>(s: Seq<T>, v: T)
    ensures
        head_inserted(s, v).first() == v,
        head_deleted(head_inserted(s, v)) == s,
        tail_inserted(s, v).last() == v,
        tail_deleted(tail_inserted(s, v)) == s,
{
    assert((seq![v] + s).drop_first() =~= s);
    assert(s.push(v).drop_last() =~= s);
}

/// An insertion makes the sequence one longer and a deletion one shorter.
pub proof fn lemma_lengths<T>(s: Seq<T>, i: int, v: T)
    requires
        0 <= i <= s.len(),
    ensures
        head_inserted(s, v).len() == s.len() + 1,
        tail_inserted(s, v).len() == s.len() + 1,
        inserted_at(s, i, v).len() == s.len() + 1,
        s.len() > 0 ==> head_deleted(s).len() == s.len() - 1,
        s.len() > 0 ==> tail_deleted(s).len() == s.len() - 1,
{
}

} // verus!
