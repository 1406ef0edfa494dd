//! Framing: how a list of byte strings is laid out as one byte string, and
//! read back. Every record that a store keeps is such a list of fields.
use vstd::prelude::*;
use vstd::bytes::*;
use vstd::slice::*;

verus! {

/// One field on the wire: its length as eight little-endian bytes, then the
/// field itself.
pub open spec fn chunk(field: Seq<u8>) -> Seq<u8> {
    spec_u64_to_le_bytes(field.len() as u64) + field
}

/// The fields one after the other, each as a chunk.
pub open spec fn frame(fields: Seq<Seq<u8>>) -> Seq<u8>
    decreases fields.len(),
{
    if fields.len() == 0 {
        Seq::empty()
    } else {
        frame(fields.drop_last()) + chunk(fields.last())
    }
}

/// The fields that a byte string is the frame of, if it is one.
pub open spec fn unframe(bytes: Seq<u8>) -> Option<Seq<Seq<u8>>>
    decreases bytes.len(),
{
    if bytes.len() == 0 {
        Some(Seq::empty())
    } else if bytes.len() < 8 {
        None
    } else {
        let n = spec_u64_from_le_bytes(bytes.subrange(0, 8)) as int;
        if 8 + n > bytes.len() {
            None
        } else {
            match unframe(bytes.subrange(8 + n, bytes.len() as int)) {
                Some(rest) => Some(seq![bytes.subrange(8, 8 + n)] + rest),
                None => None,
            }
        }
    }
}

/// What a list of byte vectors holds.
pub open spec fn fields_view(fields: Seq<Vec<u8>>) -> Seq<Seq<u8>> {
    fields.map_values(|f: Vec<u8>| f@)
}

/// Whether every field is short enough for its length to be written down.
pub open spec fn writable(fields: Seq<Seq<u8>>) -> bool {
    forall|i: int| 0 <= i < fields.len() ==> (#[trigger] fields[i]).len() <= u64::MAX
}

/// The length of a frame: eight bytes and its own length for each field.
pub open spec fn framed_len(fields: Seq<Seq<u8>>) -> nat
    decreases fields.len(),
{
    if fields.len() == 0 {
        0
    } else {
        framed_len(fields.drop_last()) + 8 + fields.last().len()
    }
}

/// A frame is as long as its fields and their lengths take.
pub proof fn lemma_frame_len(fields: Seq<Seq<u8>>)
    ensures
        frame(fields).len() == framed_len(fields),
    decreases fields.len(),
{
    lemma_auto_spec_u64_to_from_le_bytes();
    if fields.len() > 0 {
        lemma_frame_len(fields.drop_last());
    }
}

/// The lengths of the first `n` fields, added up.
pub open spec fn field_sum(fields: Seq<Seq<u8>>, n: int) -> int
    decreases n,
{
    if n <= 0 {
        0
    } else {
        field_sum(fields, n - 1) + fields[n - 1].len()
    }
}

/// A frame of `n` fields takes `8 * n` bytes and the fields.
pub proof fn lemma_field_sum(fields: Seq<Seq<u8>>, n: int)
    requires
        n == fields.len(),
    ensures
        framed_len(fields) == 8 * n + field_sum(fields, n),
    decreases n,
{
    if n > 0 {
        lemma_field_sum(fields.drop_last(), n - 1);
        lemma_field_sum_prefix(fields, fields.drop_last(), n - 1);
    }
}

/// The sum of the first fields does not depend on those that follow.
pub proof fn lemma_field_sum_prefix(a: Seq<Seq<u8>>, b: Seq<Seq<u8>>, n: int)
    requires
        0 <= n <= a.len(),
        n <= b.len(),
        forall|i: int| 0 <= i < n ==> a[i] == b[i],
    ensures
        field_sum(a, n) == field_sum(b, n),
    decreases n,
{
    if n > 0 {
        lemma_field_sum_prefix(a, b, n - 1);
    }
}

/// A frame starts with its first field's chunk.
pub proof fn lemma_frame_front(fields: Seq<Seq<u8>>)
    requires
        fields.len() > 0,
    ensures
        frame(fields) == chunk(fields.first()) + frame(fields.drop_first()),
    decreases fields.len(),
{
    if fields.len() == 1 {
        assert(fields.drop_last() =~= Seq::<Seq<u8>>::empty());
        assert(fields.drop_first() =~= Seq::<Seq<u8>>::empty());
        assert(frame(fields.drop_last()) =~= Seq::<u8>::empty());
        assert(frame(fields) =~= chunk(fields.first()) + frame(fields.drop_first()));
    } else {
        lemma_frame_front(fields.drop_last());
        assert(fields.drop_last().drop_first() =~= fields.drop_first().drop_last());
        assert(fields.drop_last().first() == fields.first());
        assert(fields.drop_first().last() == fields.last());
        assert(frame(fields) =~= chunk(fields.first()) + frame(fields.drop_first()));
    }
}

/// A frame is at least as long as any of its fields, and then eight bytes.
pub proof fn lemma_frame_holds(fields: Seq<Seq<u8>>, i: int)
    requires
        0 <= i < fields.len(),
    ensures
        frame(fields).len() >= fields[i].len() + 8,
    decreases fields.len(),
{
    lemma_auto_spec_u64_to_from_le_bytes();
    if i < fields.len() - 1 {
        lemma_frame_holds(fields.drop_last(), i);
    }
}

/// Reading a frame gives back the fields it was made of.
pub proof fn lemma_unframe_frame(fields: Seq<Seq<u8>>)
    requires
        writable(fields),
    ensures
        unframe(frame(fields)) == Some(fields),
    decreases fields.len(),
{
    lemma_auto_spec_u64_to_from_le_bytes();
    if fields.len() == 0 {
    } else {
        lemma_frame_front(fields);
        let head = fields.first();
        let tail = fields.drop_first();
        let bytes = frame(fields);
        let size = spec_u64_to_le_bytes(head.len() as u64);
        assert(bytes == size + head + frame(tail));
        assert(bytes.subrange(0, 8) =~= size);
        let n = spec_u64_from_le_bytes(bytes.subrange(0, 8)) as int;
        assert(n == head.len());
        assert(bytes.subrange(8, 8 + n) =~= head);
        assert(bytes.subrange(8 + n, bytes.len() as int) =~= frame(tail));
        lemma_unframe_frame(tail);
        assert(seq![head] + tail =~= fields);
    }
}

/// Two lists of fields with the same frame are the same list.
pub proof fn lemma_frame_injective(a: Seq<Seq<u8>>, b: Seq<Seq<u8>>)
    requires
        writable(a),
        writable(b),
        frame(a) == frame(b),
    ensures
        a == b,
{
    lemma_unframe_frame(a);
    lemma_unframe_frame(b);
}

/// Lays the fields out as one byte string.
pub fn frame_fields(fields: &Vec<Vec<u8>>) -> (r: Vec<u8>)
    ensures
        r@ == frame(fields_view(fields@)),
{
    let mut out: Vec<u8> = Vec::new();
    let mut i: usize = 0;
    while i < fields.len()
        invariant
            0 <= i <= fields.len(),
            out@ == frame(fields_view(fields@).take(i as int)),
        decreases fields.len() - i,
    {
        let field = &fields[i];
        let mut size = u64_to_le_bytes(field.len() as u64);
        proof {
            let all = fields_view(fields@);
            assert(all.take(i as int + 1).drop_last() =~= all.take(i as int));
            assert(all.take(i as int + 1).last() == field@);
        }
        out.append(&mut size);
        let mut j: usize = 0;
        while j < field.len()
            invariant
                0 <= j <= field.len(),
                out@ == frame(fields_view(fields@).take(i as int)) + spec_u64_to_le_bytes(
                    field@.len() as u64,
                ) + field@.take(j as int),
            decreases field.len() - j,
        {
            out.push(field[j]);
            assert(field@.take(j as int + 1) =~= field@.take(j as int).push(field@[j as int]));
            j += 1;
        }
        assert(field@.take(field@.len() as int) =~= field@);
        assert(out@ =~= frame(fields_view(fields@).take(i as int)) + chunk(field@));
        i += 1;
    }
    assert(fields_view(fields@).take(fields@.len() as int) =~= fields_view(fields@));
    out
}

/// Reads a byte string back into its fields; `None` where it is no frame.
pub fn unframe_fields(bytes: &Vec<u8>) -> (r: Option<Vec<Vec<u8>>>)
    ensures
        r is Some <==> unframe(bytes@) is Some,
        r is Some ==> fields_view(r->0@) == unframe(bytes@)->0,
{
    let mut out: Vec<Vec<u8>> = Vec::new();
    let mut pos: usize = 0;
    let total = bytes.len();
    proof {
        assert(bytes@.subrange(0, total as int) =~= bytes@);
        assert(fields_view(out@) =~= Seq::<Seq<u8>>::empty());
        if unframe(bytes@) is Some {
            assert(Seq::<Seq<u8>>::empty() + unframe(bytes@)->0 =~= unframe(bytes@)->0);
        }
    }
    while pos < total
        invariant
            0 <= pos <= total,
            total == bytes@.len(),
            unframe(bytes@) == (match unframe(bytes@.subrange(pos as int, total as int)) {
                Some(rest) => Some(fields_view(out@) + rest),
                None => None,
            }),
        decreases total - pos,
    {
        let ghost tail = bytes@.subrange(pos as int, total as int);
        if total - pos < 8 {
            return None;
        }
        let size = u64_from_le_bytes(slice_subrange(bytes.as_slice(), pos, pos + 8));
        assert(bytes@.subrange(pos as int, pos as int + 8) =~= tail.subrange(0, 8));
        if size > (total - pos - 8) as u64 {
            return None;
        }
        let n = size as usize;
        let mut field: Vec<u8> = Vec::new();
        let mut j: usize = 0;
        while j < n
            invariant
                0 <= j <= n,
                pos + 8 + n <= total,
                total == bytes@.len(),
                field@ == bytes@.subrange(pos as int + 8, pos as int + 8 + j as int),
            decreases n - j,
        {
            field.push(bytes[pos + 8 + j]);
            assert(bytes@.subrange(pos as int + 8, pos as int + 8 + j as int + 1)
                =~= bytes@.subrange(pos as int + 8, pos as int + 8 + j as int).push(
                bytes@[pos as int + 8 + j as int],
            ));
            j += 1;
        }
        proof {
            assert(field@ =~= tail.subrange(8, 8 + n as int));
            assert(bytes@.subrange(pos as int + 8 + n as int, total as int) =~= tail.subrange(
                8 + n as int,
                tail.len() as int,
            ));
            assert(fields_view(out@.push(field)) =~= fields_view(out@) + seq![field@]);
            let next = unframe(bytes@.subrange(pos as int + 8 + n as int, total as int));
            if next is Some {
                assert(fields_view(out@) + (seq![field@] + next->0) =~= (fields_view(out@)
                    + seq![field@]) + next->0);
            }
        }
        out.push(field);
        pos = pos + 8 + n;
    }
    assert(bytes@.subrange(pos as int, total as int) =~= Seq::<u8>::empty());
    assert(fields_view(out@) + Seq::<Seq<u8>>::empty() =~= fields_view(out@));
    Some(out)
}

} // verus!
