//! The walk over the `$include` graph: documents are entered depth first,
//! in the order their includes are written, and each at most once, so
//! that include cycles end the walk instead of looping.
//!
//! The walk only decides; finding a document's includes (reading files,
//! resolving paths) is the caller's work. The caller asks for the next
//! document to enter and then hands back the keys of its includes.

use vstd::prelude::*;

verus! {

/// A key identifies a document (the bytes of its path or URI).
pub open spec fn keys_view(v: Seq<Vec<u8>>) -> Seq<Seq<u8>> {
    v.map_values(|k: Vec<u8>| k@)
}

/// The state of a walk: what was entered, in order, and what is still to
/// be tried (the top of the stack last).
pub struct IncludeWalk {
    /// Keys entered so far, in order.
    pub order: Vec<Vec<u8>>,
    /// Keys still to try; the last one is tried first.
    pub pending: Vec<Vec<u8>>,
}

/// The key to enter next and the keys left to try: keys already entered
/// are dropped from the top of the stack until a new one shows.
pub open spec fn next_key(pending: Seq<Seq<u8>>, entered: Seq<Seq<u8>>) -> (Option<Seq<u8>>, Seq<Seq<u8>>)
    decreases pending.len(),
{
    if pending.len() == 0 {
        (None, pending)
    } else if entered.contains(pending.last()) {
        next_key(pending.drop_last(), entered)
    } else {
        (Some(pending.last()), pending.drop_last())
    }
}

/// The stack with `kids` pushed so that the first of them is tried first.
pub open spec fn push_kids(pending: Seq<Seq<u8>>, kids: Seq<Seq<u8>>) -> Seq<Seq<u8>> {
    pending + kids.reverse()
}

fn bytes_eq(a: &Vec<u8>, b: &Vec<u8>) -> (r: bool)
    ensures
        r == (a@ == b@),
{
    if a.len() != b.len() {
        return false;
    }
    let mut i: usize = 0;
    while i < a.len()
        invariant
            i <= a@.len(),
            a@.len() == b@.len(),
            forall|j: int| 0 <= j < i ==> a@[j] == b@[j],
        decreases a@.len() - i,
    {
        if a[i] != b[i] {
            return false;
        }
        i += 1;
    }
    assert(a@ == b@);
    true
}

fn copy_bytes(a: &Vec<u8>) -> (r: Vec<u8>)
    ensures
        r@ == a@,
{
    let mut r: Vec<u8> = Vec::new();
    let mut i: usize = 0;
    while i < a.len()
        invariant
            i <= a@.len(),
            r@ == a@.take(i as int),
        decreases a@.len() - i,
    {
        assert(a@.take(i + 1) == a@.take(i as int).push(a@[i as int]));
        r.push(a[i]);
        i += 1;
    }
    assert(a@.take(a@.len() as int) == a@);
    r
}

impl IncludeWalk {
    /// A walk that starts at `root`.
    pub fn new(root: Vec<u8>) -> (w: Self)
        ensures
            keys_view(w.order@) == Seq::<Seq<u8>>::empty(),
            keys_view(w.pending@) == seq![root@],
    {
        let mut pending: Vec<Vec<u8>> = Vec::new();
        pending.push(root);
        assert(keys_view(pending@) == seq![root@]);
        let w = IncludeWalk { order: Vec::new(), pending };
        assert(keys_view(w.order@) == Seq::<Seq<u8>>::empty());
        w
    }

    /// Whether `key` was entered.
    pub fn entered(&self, key: &Vec<u8>) -> (r: bool)
        ensures
            r == keys_view(self.order@).contains(key@),
    {
        let mut i: usize = 0;
        while i < self.order.len()
            invariant
                i <= self.order@.len(),
                forall|j: int| 0 <= j < i ==> keys_view(self.order@)[j] != key@,
            decreases self.order@.len() - i,
        {
            if bytes_eq(&self.order[i], key) {
                assert(keys_view(self.order@)[i as int] == key@);
                return true;
            }
            i += 1;
        }
        false
    }

    /// The next document to enter, if any: the top of the stack, once the
    /// keys already entered are dropped from it. It is recorded as entered.
    pub fn next(&mut self) -> (r: Option<Vec<u8>>)
        ensures
            ({
                let (k, rest) = next_key(keys_view(old(self).pending@), keys_view(old(self).order@));
                &&& keys_view(final(self).pending@) == rest
                &&& match k {
                    Some(key) => {
                        &&& r is Some
                        &&& r.unwrap()@ == key
                        &&& keys_view(final(self).order@) == keys_view(old(self).order@).push(key)
                    },
                    None => {
                        &&& r is None
                        &&& keys_view(final(self).order@) == keys_view(old(self).order@)
                    },
                }
            }),
    {
        let ghost entered = keys_view(self.order@);
        loop
            invariant
                keys_view(self.order@) == entered,
                next_key(keys_view(self.pending@), entered) == next_key(
                    keys_view(old(self).pending@),
                    entered,
                ),
                entered == keys_view(old(self).order@),
            decreases self.pending@.len(),
        {
            let ghost before = self.pending@;
            match self.pending.pop() {
                None => {
                    assert(keys_view(self.pending@) == Seq::<Seq<u8>>::empty());
                    return None;
                },
                Some(key) => {
                    assert(keys_view(before).last() == key@);
                    assert(keys_view(before).drop_last() == keys_view(self.pending@));
                    if !self.entered(&key) {
                        let ghost o = self.order@;
                        self.order.push(copy_bytes(&key));
                        assert(keys_view(self.order@) == keys_view(o).push(key@));
                        return Some(key);
                    }
                },
            }
        }
    }

    /// Hand back the includes of the document just entered, in the order
    /// they are written; they are tried before anything pending.
    pub fn expand(&mut self, kids: Vec<Vec<u8>>)
        ensures
            keys_view(final(self).pending@) == push_kids(keys_view(old(self).pending@), keys_view(kids@)),
            final(self).order@ == old(self).order@,
    {
        let mut k = kids.len();
        let ghost start = keys_view(self.pending@);
        let ghost kv = keys_view(kids@);
        while k > 0
            invariant
                k <= kids@.len(),
                kv == keys_view(kids@),
                self.order@ == old(self).order@,
                keys_view(self.pending@) == start + kv.subrange(k as int, kv.len() as int).reverse(),
            decreases k,
        {
            k -= 1;
            let ghost p = self.pending@;
            self.pending.push(copy_bytes(&kids[k]));
            assert(keys_view(self.pending@) == keys_view(p).push(kv[k as int]));
            assert(kv.subrange(k as int, kv.len() as int).reverse() == kv.subrange(
                k + 1,
                kv.len() as int,
            ).reverse().push(kv[k as int]));
        }
        assert(kv.subrange(0, kv.len() as int) == kv);
    }
}

} // verus!
