//! The wire form of the id lists that announcements and requests carry.
use vstd::prelude::*;
use crate::wire::{field, lemma_read_field, push_field, read_field, take_field};

verus! {

/// The byte strings that `v` holds.
pub open spec fn views(v: Seq<Vec<u8>>) -> Seq<Seq<u8>> {
    v.map_values(|x: Vec<u8>| x@)
}

/// Every id fits a four-byte length.
pub open spec fn ids_ok(s: Seq<Seq<u8>>) -> bool {
    forall|i: int| 0 <= i < s.len() ==> (#[trigger] s[i]).len() <= u32::MAX
}

/// The wire form of an id list: each id as a field, in order.
pub open spec fn ids_bytes(s: Seq<Seq<u8>>) -> Seq<u8>
    decreases s.len(),
{
    if s.len() == 0 {
        Seq::empty()
    } else {
        field(s[0]) + ids_bytes(s.drop_first())
    }
}

proof fn lemma_ids_push(s: Seq<Seq<u8>>, x: Seq<u8>)
    ensures
        ids_bytes(s.push(x)) == ids_bytes(s) + field(x),
    decreases s.len(),
{
    assert(s.push(x)[0] == if s.len() == 0 { x } else { s[0] });
    if s.len() == 0 {
        assert(s.push(x).drop_first() =~= Seq::<Seq<u8>>::empty());
        assert(ids_bytes(s.push(x).drop_first()) == Seq::<u8>::empty());
        assert(ids_bytes(s) == Seq::<u8>::empty());
        assert(field(x) + Seq::<u8>::empty() =~= field(x));
        assert(Seq::<u8>::empty() + field(x) =~= field(x));
    } else {
        assert(s.push(x).drop_first() =~= s.drop_first().push(x));
        lemma_ids_push(s.drop_first(), x);
        assert(field(s[0]) + (ids_bytes(s.drop_first()) + field(x)) =~= (field(s[0]) + ids_bytes(
            s.drop_first(),
        )) + field(x));
    }
}

proof fn lemma_step(s: Seq<Seq<u8>>, k: int, rest: Seq<u8>)
    requires
        ids_ok(s),
        0 <= k <= s.len(),
        rest == ids_bytes(s.subrange(k, s.len() as int)),
        rest.len() > 0,
    ensures
        k < s.len(),
        read_field(rest) == Some((s[k], ids_bytes(s.subrange(k + 1, s.len() as int)))),
{
    let t = s.subrange(k, s.len() as int);
    if t.len() == 0 {
        assert(ids_bytes(t) == Seq::<u8>::empty());
    }
    assert(t[0] == s[k]);
    assert(t.drop_first() =~= s.subrange(k + 1, s.len() as int));
    lemma_read_field(s[k], ids_bytes(t.drop_first()));
}

proof fn lemma_end(s: Seq<Seq<u8>>, k: int)
    requires
        0 <= k <= s.len(),
        ids_bytes(s.subrange(k, s.len() as int)).len() == 0,
    ensures
        k == s.len(),
{
    let t = s.subrange(k, s.len() as int);
    if t.len() > 0 {
        assert(ids_bytes(t) == field(t[0]) + ids_bytes(t.drop_first()));
    }
}

/// Encodes an id list.
pub fn encode_ids(ids: &Vec<Vec<u8>>) -> (r: Vec<u8>)
    requires
        ids_ok(views(ids@)),
    ensures
        r@ == ids_bytes(views(ids@)),
{
    let mut out: Vec<u8> = Vec::new();
    let mut i: usize = 0;
    while i < ids.len()
        invariant
            i <= ids@.len(),
            ids_ok(views(ids@)),
            out@ == ids_bytes(views(ids@).subrange(0, i as int)),
        decreases ids@.len() - i,
    {
        proof {
            assert(views(ids@)[i as int] == ids@[i as int]@);
            lemma_ids_push(views(ids@).subrange(0, i as int), ids@[i as int]@);
            assert(views(ids@).subrange(0, i as int).push(ids@[i as int]@) =~= views(ids@).subrange(0, i + 1));
        }
        push_field(&mut out, &ids[i]);
        i = i + 1;
    }
    assert(views(ids@).subrange(0, ids@.len() as int) =~= views(ids@));
    out
}

/// Decodes an id list: `Some` exactly when `b` is the encoding of one, which is
/// then the list returned.
#[verifier::rlimit(40)]
pub fn decode_ids(b: &Vec<u8>) -> (r: Option<Vec<Vec<u8>>>)
    ensures
        r is Some ==> ids_bytes(views(r.unwrap()@)) == b@ && ids_ok(views(r.unwrap()@)),
        forall|s: Seq<Seq<u8>>| ids_ok(s) && #[trigger] ids_bytes(s) == b@ ==> r is Some && views(r.unwrap()@) == s,
{
    let mut out: Vec<Vec<u8>> = Vec::new();
    let mut pos: usize = 0;
    proof {
        assert(views(out@) =~= Seq::<Seq<u8>>::empty());
        assert(ids_bytes(views(out@)) == Seq::<u8>::empty());
        assert(b@.subrange(0, b@.len() as int) =~= b@);
        assert(ids_bytes(views(out@)) + b@.subrange(0, b@.len() as int) =~= b@);
        assert forall|s: Seq<Seq<u8>>| ids_ok(s) && #[trigger] ids_bytes(s) == b@ implies {
            &&& out@.len() <= s.len()
            &&& views(out@) == s.subrange(0, out@.len() as int)
            &&& b@.subrange(pos as int, b@.len() as int) == ids_bytes(s.subrange(out@.len() as int, s.len() as int))
        } by {
            assert(s.subrange(0, s.len() as int) =~= s);
            assert(views(out@) =~= s.subrange(0, 0));
        }
    }
    while pos < b.len()
        invariant
            pos <= b@.len(),
            ids_ok(views(out@)),
            ids_bytes(views(out@)) + b@.subrange(pos as int, b@.len() as int) == b@,
            forall|s: Seq<Seq<u8>>| ids_ok(s) && #[trigger] ids_bytes(s) == b@ ==> {
                &&& out@.len() <= s.len()
                &&& views(out@) == s.subrange(0, out@.len() as int)
                &&& b@.subrange(pos as int, b@.len() as int) == ids_bytes(s.subrange(out@.len() as int, s.len() as int))
            },
        decreases b@.len() - pos,
    {
        let ghost rest = b@.subrange(pos as int, b@.len() as int);
        let ghost k = out@.len() as int;
        proof {
            assert forall|s: Seq<Seq<u8>>| ids_ok(s) && #[trigger] ids_bytes(s) == b@ implies {
                &&& k < s.len()
                &&& read_field(rest) == Some((s[k], ids_bytes(s.subrange(k + 1, s.len() as int))))
            } by {
                lemma_step(s, k, rest);
            }
        }
        let (x, next) = match take_field(b, pos) {
            Some(p) => p,
            None => return None,
        };
        proof {
            crate::wire::lemma_read_field_back(rest);
            assert(next > pos) by {
                assert(b@.subrange(next as int, b@.len() as int).len() < rest.len());
            }
        }
        let ghost pre = out@;
        out.push(x);
        proof {
            assert(views(out@) =~= views(pre).push(x@));
            lemma_ids_push(views(pre), x@);
            assert(ids_bytes(views(out@)) + b@.subrange(next as int, b@.len() as int) =~= b@);
            assert forall|s: Seq<Seq<u8>>| ids_ok(s) && #[trigger] ids_bytes(s) == b@ implies {
                &&& out@.len() <= s.len()
                &&& views(out@) == s.subrange(0, out@.len() as int)
                &&& b@.subrange(next as int, b@.len() as int) == ids_bytes(s.subrange(out@.len() as int, s.len() as int))
            } by {
                assert(views(out@) =~= s.subrange(0, k + 1));
            }
            assert forall|i: int| 0 <= i < views(out@).len() implies (#[trigger] views(out@)[i]).len() <= u32::MAX by {
                if i < pre.len() {
                    assert(views(out@)[i] == views(pre)[i]);
                }
            }
        }
        pos = next;
    }
    proof {
        assert(b@.subrange(pos as int, b@.len() as int) =~= Seq::<u8>::empty());
        assert(ids_bytes(views(out@)) =~= b@);
        assert forall|s: Seq<Seq<u8>>| ids_ok(s) && #[trigger] ids_bytes(s) == b@ implies views(out@) == s by {
            lemma_end(s, out@.len() as int);
            assert(views(out@) =~= s);
        }
    }
    Some(out)
}

} // verus!
