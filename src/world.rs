use vstd::prelude::*;

verus! {

/// An entity of the world: its index and the generation of that index.
///
/// Two entities are the same exactly when both parts agree.
#[derive(Clone, Copy, Debug, PartialEq, Eq, Structural, Hash)]
pub struct EntityId {
    pub index: u32,
    pub generation: u32,
}

/// What the world stores for one entity: its id and the component kinds
/// attached to it, in storage order.
#[derive(Clone, Debug)]
pub struct EntityRecord {
    pub entity: EntityId,
    pub kinds: Vec<usize>,
}

/// The kinds among `candidates` that are attached to the entity (`stored`)
/// and that the registry can reflect (`reflectable`), in candidate order.
pub open spec fn reflected(candidates: Seq<usize>, stored: Seq<usize>, reflectable: Seq<usize>) -> Seq<usize> {
    candidates.filter(|k: usize| stored.contains(k) && reflectable.contains(k))
}

/// The kinds of `stored` that the registry can reflect, in storage order.
pub open spec fn reflectable_of(stored: Seq<usize>, reflectable: Seq<usize>) -> Seq<usize> {
    stored.filter(|k: usize| reflectable.contains(k))
}

/// The record carries every kind of `kinds`.
pub open spec fn has_all(record: EntityRecord, kinds: Seq<usize>) -> bool {
    forall|j: int| 0 <= j < kinds.len() ==> record.kinds@.contains(#[trigger] kinds[j])
}

/// Membership in `reflected`: a kind is kept exactly when it is a candidate,
/// stored and reflectable; distinct candidates give distinct kinds.
pub proof fn lemma_reflected_members(candidates: Seq<usize>, stored: Seq<usize>, reflectable: Seq<usize>)
    ensures
        forall|k: usize| #[trigger] reflected(candidates, stored, reflectable).contains(k) <==> (
            candidates.contains(k) && stored.contains(k) && reflectable.contains(k)),
        candidates.no_duplicates() ==> reflected(candidates, stored, reflectable).no_duplicates(),
    decreases candidates.len(),
{
    reveal(Seq::filter);
    if candidates.len() > 0 {
        let prefix = candidates.drop_last();
        lemma_reflected_members(prefix, stored, reflectable);
        assert forall|k: usize| #[trigger] candidates.contains(k) <==> (prefix.contains(k) || k == candidates.last()) by {
            if candidates.contains(k) {
                let j = choose|j: int| 0 <= j < candidates.len() && candidates[j] == k;
                if j < candidates.len() - 1 {
                    assert(prefix[j] == k);
                }
            }
            if prefix.contains(k) {
                let j = choose|j: int| 0 <= j < prefix.len() && prefix[j] == k;
                assert(candidates[j] == k);
            }
        }
        let last = candidates.last();
        let rp = reflected(prefix, stored, reflectable);
        let r = reflected(candidates, stored, reflectable);
        assert(r == if stored.contains(last) && reflectable.contains(last) { rp.push(last) } else { rp });
        assert forall|k: usize| #[trigger] r.contains(k) <==> (rp.contains(k) || (k == last && stored.contains(k)
            && reflectable.contains(k))) by {
            if stored.contains(last) && reflectable.contains(last) {
                if r.contains(k) {
                    let j = choose|j: int| 0 <= j < r.len() && r[j] == k;
                    if j < rp.len() {
                        assert(rp[j] == k);
                    }
                }
                if rp.contains(k) {
                    let j = choose|j: int| 0 <= j < rp.len() && rp[j] == k;
                    assert(r[j] == k);
                }
                if k == last {
                    assert(r[rp.len() as int] == k);
                }
            }
        }
        if candidates.no_duplicates() {
            assert(prefix.no_duplicates());
            assert(!prefix.contains(last)) by {
                if prefix.contains(last) {
                    let j = choose|j: int| 0 <= j < prefix.len() && prefix[j] == last;
                    assert(candidates[j] == candidates[candidates.len() - 1]);
                }
            }
            if stored.contains(last) && reflectable.contains(last) {
                assert(!rp.contains(last));
                assert forall|a: int, b: int| 0 <= a < r.len() && 0 <= b < r.len() && a != b implies r[a] != r[b] by {
                    if a < rp.len() && b < rp.len() {
                        assert(rp[a] == r[a] && rp[b] == r[b]);
                    } else if a < rp.len() {
                        assert(rp[a] == r[a]);
                        assert(rp.contains(r[a]));
                    } else if b < rp.len() {
                        assert(rp[b] == r[b]);
                        assert(rp.contains(r[b]));
                    }
                }
            }
        }
    }
}

/// Filtering the stored kinds by themselves and the registry keeps exactly
/// the reflectable ones.
pub proof fn lemma_reflected_self(stored: Seq<usize>, prefix_len: int, reflectable: Seq<usize>)
    requires
        0 <= prefix_len <= stored.len(),
    ensures
        reflected(stored.take(prefix_len), stored, reflectable) == reflectable_of(stored.take(prefix_len), reflectable),
    decreases prefix_len,
{
    reveal(Seq::filter);
    if prefix_len > 0 {
        lemma_reflected_self(stored, prefix_len - 1, reflectable);
        assert(stored.take(prefix_len).drop_last() =~= stored.take(prefix_len - 1));
        assert(stored.contains(stored[prefix_len - 1]));
    }
}

/// Whether `kinds` holds `k`.
pub fn holds_kind(kinds: &Vec<usize>, k: usize) -> (r: bool)
    ensures
        r == kinds@.contains(k),
{
    let mut i: usize = 0;
    while i < kinds.len()
        invariant
            i <= kinds@.len(),
            forall|j: int| 0 <= j < i ==> kinds@[j] != k,
        decreases kinds@.len() - i,
    {
        if kinds[i] == k {
            return true;
        }
        i = i + 1;
    }
    false
}

/// Whether the record carries every kind of `kinds`.
pub fn record_has_all(record: &EntityRecord, kinds: &Vec<usize>) -> (r: bool)
    ensures
        r == has_all(*record, kinds@),
{
    let mut i: usize = 0;
    while i < kinds.len()
        invariant
            i <= kinds@.len(),
            forall|j: int| 0 <= j < i ==> record.kinds@.contains(#[trigger] kinds@[j]),
        decreases kinds@.len() - i,
    {
        if !holds_kind(&record.kinds, kinds[i]) {
            return false;
        }
        i = i + 1;
    }
    true
}

/// The candidates that are stored on the entity and reflectable, in
/// candidate order.
pub fn reflected_kinds(candidates: &Vec<usize>, stored: &Vec<usize>, reflectable: &Vec<usize>) -> (r: Vec<usize>)
    ensures
        r@ == reflected(candidates@, stored@, reflectable@),
{
    let mut out: Vec<usize> = Vec::new();
    let mut i: usize = 0;
    while i < candidates.len()
        invariant
            i <= candidates@.len(),
            out@ == reflected(candidates@.take(i as int), stored@, reflectable@),
        decreases candidates@.len() - i,
    {
        proof {
            reveal(Seq::filter);
            assert(candidates@.take(i + 1).drop_last() =~= candidates@.take(i as int));
        }
        let k = candidates[i];
        if holds_kind(stored, k) && holds_kind(reflectable, k) {
            out.push(k);
        }
        i = i + 1;
    }
    assert(candidates@.take(candidates@.len() as int) =~= candidates@);
    out
}

/// The stored kinds that the registry can reflect, in storage order.
pub fn reflectable_kinds(stored: &Vec<usize>, reflectable: &Vec<usize>) -> (r: Vec<usize>)
    ensures
        r@ == reflectable_of(stored@, reflectable@),
{
    let mut out: Vec<usize> = Vec::new();
    let mut i: usize = 0;
    while i < stored.len()
        invariant
            i <= stored@.len(),
            out@ == reflectable_of(stored@.take(i as int), reflectable@),
        decreases stored@.len() - i,
    {
        proof {
            reveal(Seq::filter);
            assert(stored@.take(i + 1).drop_last() =~= stored@.take(i as int));
        }
        if holds_kind(reflectable, stored[i]) {
            out.push(stored[i]);
        }
        i = i + 1;
    }
    assert(stored@.take(stored@.len() as int) =~= stored@);
    out
}

} // verus!
