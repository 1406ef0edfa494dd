//! Lists as the stores keep them: what it means to take an entry out of a
//! list, and how a list of identities is stored and read back.
use vstd::prelude::*;
use vstd::bytes::*;
use vstd::utf8::*;
use crate::codec::{
    fields_view, frame, frame_fields, lemma_unframe_frame, unframe, unframe_fields, writable,
};
use crate::identity::{identities_view, Identity};
use crate::table::{table_entries, table_get, ByteTable};
use crate::text::{text_bytes, text_from_utf8, texts_view};

verus! {

/// The test that everything but `x` passes.
pub open spec fn differs(x: Seq<u8>) -> spec_fn(Seq<u8>) -> bool {
    |y: Seq<u8>| y != x
}

/// The test that the entries of `ys` pass.
pub open spec fn among(ys: Seq<Seq<u8>>) -> spec_fn(Seq<u8>) -> bool {
    |x: Seq<u8>| ys.contains(x)
}

/// A list without the entries equal to `x`, the others in their order.
pub open spec fn without(list: Seq<Seq<u8>>, x: Seq<u8>) -> Seq<Seq<u8>> {
    list.filter(differs(x))
}

/// The entries of `xs` that also occur in `ys`, in the order of `xs`.
pub open spec fn common(xs: Seq<Seq<u8>>, ys: Seq<Seq<u8>>) -> Seq<Seq<u8>> {
    xs.filter(among(ys))
}

/// The list stored under `key`; the empty list where nothing that reads as a
/// list is stored there.
pub open spec fn stored_list(entries: Map<Seq<u8>, Seq<u8>>, key: Seq<u8>) -> Seq<Seq<u8>> {
    if entries.dom().contains(key) {
        match unframe(entries[key]) {
            Some(list) => list,
            None => Seq::empty(),
        }
    } else {
        Seq::empty()
    }
}

/// What a list holds after one more entry.
pub proof fn lemma_contains_push<A>(s: Seq<A>, x: A, y: A)
    ensures
        s.push(x).contains(y) <==> (s.contains(y) || x == y),
{
    if s.contains(y) {
        let i = choose|i: int| 0 <= i < s.len() && s[i] == y;
        assert(s.push(x)[i] == y);
    }
    if x == y {
        assert(s.push(x)[s.len() as int] == y);
    }
    if s.push(x).contains(y) {
        let i = choose|i: int| 0 <= i < s.push(x).len() && s.push(x)[i] == y;
        if i < s.len() {
            assert(s[i] == y);
        }
    }
}

/// A new entry keeps a list free of repeats.
pub proof fn lemma_push_no_duplicates<A>(s: Seq<A>, x: A)
    requires
        s.no_duplicates(),
        !s.contains(x),
    ensures
        s.push(x).no_duplicates(),
{
    assert forall|i: int, j: int|
        0 <= i < s.push(x).len() && 0 <= j < s.push(x).len() && i != j implies s.push(x)[i]
        != s.push(x)[j] by {
        if i < s.len() && j < s.len() {
        } else if i < s.len() {
            assert(s[i] != x);
        } else {
            assert(s[j] != x);
        }
    }
}

/// What passes a filter is what was there and passes the test.
pub proof fn lemma_filter_holds<A>(s: Seq<A>, pred: spec_fn(A) -> bool, y: A)
    ensures
        s.filter(pred).contains(y) <==> (s.contains(y) && pred(y)),
    decreases s.len(),
{
    reveal(Seq::filter);
    if s.len() > 0 {
        let rest = s.drop_last();
        lemma_filter_holds(rest, pred, y);
        assert(s =~= rest.push(s.last()));
        lemma_contains_push(rest, s.last(), y);
        if pred(s.last()) {
            lemma_contains_push(rest.filter(pred), s.last(), y);
        }
    }
}

/// Filtering a list that has no repeats leaves none.
pub proof fn lemma_filter_no_duplicates<A>(s: Seq<A>, pred: spec_fn(A) -> bool)
    requires
        s.no_duplicates(),
    ensures
        s.filter(pred).no_duplicates(),
    decreases s.len(),
{
    reveal(Seq::filter);
    if s.len() > 0 {
        let rest = s.drop_last();
        lemma_filter_no_duplicates(rest, pred);
        if pred(s.last()) {
            lemma_filter_holds(rest, pred, s.last());
            if rest.contains(s.last()) {
                let i = choose|i: int| 0 <= i < rest.len() && rest[i] == s.last();
                assert(s[i] == s[s.len() - 1]);
            }
            lemma_push_no_duplicates(rest.filter(pred), s.last());
        }
    }
}

/// A filtered list is stored in no more bytes than the list.
pub proof fn lemma_filter_frame(s: Seq<Seq<u8>>, pred: spec_fn(Seq<u8>) -> bool)
    ensures
        frame(s.filter(pred)).len() <= frame(s).len(),
    decreases s.len(),
{
    reveal(Seq::filter);
    if s.len() > 0 {
        let rest = s.drop_last();
        lemma_filter_frame(rest, pred);
        if pred(s.last()) {
            assert(rest.filter(pred).push(s.last()).drop_last() =~= rest.filter(pred));
        }
    }
}

/// The identities as a list of fields.
pub fn identities_to_fields(ids: &Vec<Identity>) -> (r: Vec<Vec<u8>>)
    ensures
        fields_view(r@) == identities_view(ids@),
        writable(identities_view(ids@)),
{
    let mut out: Vec<Vec<u8>> = Vec::new();
    let mut i: usize = 0;
    while i < ids.len()
        invariant
            0 <= i <= ids.len(),
            out@.len() == i,
            forall|k: int| 0 <= k < i ==> (#[trigger] out@[k])@ == ids@[k]@,
        decreases ids.len() - i,
    {
        out.push(ids[i].to_bytes());
        i += 1;
    }
    proof {
        assert(fields_view(out@) =~= identities_view(ids@));
        assert forall|k: int| 0 <= k < ids@.len() implies (#[trigger] identities_view(
            ids@,
        )[k]).len() <= u64::MAX by {
            assert(out@[k].len() == out@[k]@.len());
        }
    }
    out
}

/// The fields as a list of identities.
pub fn identities_from_fields(fields: &Vec<Vec<u8>>) -> (r: Vec<Identity>)
    ensures
        identities_view(r@) == fields_view(fields@),
{
    let mut out: Vec<Identity> = Vec::new();
    let mut i: usize = 0;
    while i < fields.len()
        invariant
            0 <= i <= fields.len(),
            out@.len() == i,
            forall|k: int| 0 <= k < i ==> (#[trigger] out@[k])@ == fields@[k]@,
        decreases fields.len() - i,
    {
        out.push(Identity::from_bytes(fields[i].clone()));
        i += 1;
    }
    assert(identities_view(out@) =~= fields_view(fields@));
    out
}

/// The bytes under which a list of identities is stored.
pub fn identities_to_bytes(ids: &Vec<Identity>) -> (r: Vec<u8>)
    ensures
        r@ == frame(identities_view(ids@)),
        unframe(r@) == Some(identities_view(ids@)),
        writable(identities_view(ids@)),
{
    let fields = identities_to_fields(ids);
    proof {
        lemma_unframe_frame(identities_view(ids@));
    }
    frame_fields(&fields)
}

/// The identities stored under `key`; none where nothing that reads as a
/// list is stored there.
pub fn read_identities(t: &ByteTable, key: &Vec<u8>) -> (r: Vec<Identity>)
    ensures
        identities_view(r@) == stored_list(table_entries(*t), key@),
{
    match table_get(t, key) {
        Some(bytes) => match unframe_fields(&bytes) {
            Some(fields) => identities_from_fields(&fields),
            None => {
                let none: Vec<Identity> = Vec::new();
                assert(identities_view(none@) =~= Seq::<Seq<u8>>::empty());
                none
            },
        },
        None => {
            let none: Vec<Identity> = Vec::new();
            assert(identities_view(none@) =~= Seq::<Seq<u8>>::empty());
            none
        },
    }
}

/// The identities of `ids` other than `id`, in their order.
pub fn drop_identity(ids: &Vec<Identity>, id: &Identity) -> (r: Vec<Identity>)
    ensures
        identities_view(r@) == without(identities_view(ids@), id@),
{
    let mut out: Vec<Identity> = Vec::new();
    let mut i: usize = 0;
    let ghost all = identities_view(ids@);
    proof {
        reveal(Seq::filter);
        assert(all.take(0) =~= Seq::<Seq<u8>>::empty());
        assert(identities_view(out@) =~= Seq::<Seq<u8>>::empty());
    }
    while i < ids.len()
        invariant
            0 <= i <= ids.len(),
            all == identities_view(ids@),
            identities_view(out@) == without(all.take(i as int), id@),
        decreases ids.len() - i,
    {
        proof {
            assert(all.take(i as int + 1) =~= all.take(i as int).push(all[i as int]));
            all.take(i as int).lemma_filter_push(all[i as int], differs(id@));
        }
        if !ids[i].same_as(id) {
            let ghost before = identities_view(out@);
            out.push(ids[i].clone());
            assert(identities_view(out@) =~= before.push(all[i as int]));
        }
        i += 1;
    }
    assert(all.take(ids@.len() as int) =~= all);
    out
}

/// The identities of `xs` that also occur in `ys`, in the order of `xs`.
pub fn common_identities(xs: &Vec<Identity>, ys: &Vec<Identity>) -> (r: Vec<Identity>)
    ensures
        identities_view(r@) == common(identities_view(xs@), identities_view(ys@)),
{
    let mut out: Vec<Identity> = Vec::new();
    let mut i: usize = 0;
    let ghost all = identities_view(xs@);
    let ghost others = identities_view(ys@);
    proof {
        reveal(Seq::filter);
        assert(all.take(0) =~= Seq::<Seq<u8>>::empty());
        assert(identities_view(out@) =~= Seq::<Seq<u8>>::empty());
    }
    while i < xs.len()
        invariant
            0 <= i <= xs.len(),
            all == identities_view(xs@),
            others == identities_view(ys@),
            identities_view(out@) == common(all.take(i as int), others),
        decreases xs.len() - i,
    {
        proof {
            assert(all.take(i as int + 1) =~= all.take(i as int).push(all[i as int]));
            all.take(i as int).lemma_filter_push(all[i as int], among(others));
        }
        if crate::identity::listed(ys, &xs[i]) {
            let ghost before = identities_view(out@);
            out.push(xs[i].clone());
            assert(identities_view(out@) =~= before.push(all[i as int]));
        }
        i += 1;
    }
    assert(all.take(xs@.len() as int) =~= all);
    out
}

/// The test that every number but `x` passes.
pub open spec fn other_than(x: u64) -> spec_fn(u64) -> bool {
    |y: u64| y != x
}

/// Numbers as fields: each as eight little-endian bytes.
pub open spec fn ids_fields(ids: Seq<u64>) -> Seq<Seq<u8>> {
    ids.map_values(|x: u64| spec_u64_to_le_bytes(x))
}

/// The numbers that a list of fields spells, if each field spells one.
pub open spec fn fields_ids(fields: Seq<Seq<u8>>) -> Option<Seq<u64>> {
    if forall|i: int| 0 <= i < fields.len() ==> (#[trigger] fields[i]).len() == 8 {
        Some(fields.map_values(|f: Seq<u8>| spec_u64_from_le_bytes(f)))
    } else {
        None
    }
}

/// The numbers stored under `key`; none where nothing that reads as a list
/// of numbers is stored there.
pub open spec fn stored_ids(entries: Map<Seq<u8>, Seq<u8>>, key: Seq<u8>) -> Seq<u64> {
    if entries.dom().contains(key) {
        match unframe(entries[key]) {
            Some(fields) => match fields_ids(fields) {
                Some(ids) => ids,
                None => Seq::empty(),
            },
            None => Seq::empty(),
        }
    } else {
        Seq::empty()
    }
}

/// Texts as fields: each as its UTF-8 bytes.
pub open spec fn texts_fields(texts: Seq<Seq<char>>) -> Seq<Seq<u8>> {
    texts.map_values(|t: Seq<char>| encode_utf8(t))
}

/// The texts that a list of fields spells, if each field spells one.
pub open spec fn fields_texts(fields: Seq<Seq<u8>>) -> Option<Seq<Seq<char>>> {
    if forall|i: int| 0 <= i < fields.len() ==> valid_utf8(#[trigger] fields[i]) {
        Some(fields.map_values(|f: Seq<u8>| decode_utf8(f)))
    } else {
        None
    }
}

/// Numbers written as fields read back as the numbers.
pub proof fn lemma_ids_round_trip(ids: Seq<u64>)
    ensures
        fields_ids(ids_fields(ids)) == Some(ids),
        writable(ids_fields(ids)),
{
    lemma_auto_spec_u64_to_from_le_bytes();
    assert(ids_fields(ids).map_values(|f: Seq<u8>| spec_u64_from_le_bytes(f)) =~= ids);
}

/// Texts written as fields read back as the texts.
pub proof fn lemma_texts_round_trip(texts: Seq<Seq<char>>)
    ensures
        fields_texts(texts_fields(texts)) == Some(texts),
{
    assert forall|i: int| 0 <= i < texts.len() implies valid_utf8(
        #[trigger] texts_fields(texts)[i],
    ) && decode_utf8(texts_fields(texts)[i]) == texts[i] by {
        encode_utf8_valid_utf8(texts[i]);
        encode_utf8_decode_utf8(texts[i]);
    }
    assert(texts_fields(texts).map_values(|f: Seq<u8>| decode_utf8(f)) =~= texts);
}

/// A stored list of numbers takes sixteen bytes for each.
pub proof fn lemma_ids_len(ids: Seq<u64>)
    ensures
        frame(ids_fields(ids)).len() == 16 * ids.len(),
    decreases ids.len(),
{
    lemma_auto_spec_u64_to_from_le_bytes();
    if ids.len() > 0 {
        lemma_ids_len(ids.drop_last());
        assert(ids_fields(ids).drop_last() =~= ids_fields(ids.drop_last()));
    } else {
        assert(ids_fields(ids) =~= Seq::<Seq<u8>>::empty());
    }
}

/// A filtered list of numbers is stored in no more bytes than the list.
pub proof fn lemma_ids_filter_frame(s: Seq<u64>, pred: spec_fn(u64) -> bool)
    ensures
        frame(ids_fields(s.filter(pred))).len() <= frame(ids_fields(s)).len(),
    decreases s.len(),
{
    reveal(Seq::filter);
    if s.len() > 0 {
        let rest = s.drop_last();
        lemma_ids_filter_frame(rest, pred);
        assert(ids_fields(s).drop_last() =~= ids_fields(rest));
        if pred(s.last()) {
            assert(ids_fields(rest.filter(pred).push(s.last())).drop_last() =~= ids_fields(
                rest.filter(pred),
            ));
        }
    } else {
        assert(ids_fields(s.filter(pred)) =~= Seq::<Seq<u8>>::empty());
    }
}

/// The bytes under which a list of numbers is stored.
pub fn ids_to_bytes(ids: &Vec<u64>) -> (r: Vec<u8>)
    ensures
        r@ == frame(ids_fields(ids@)),
        unframe(r@) == Some(ids_fields(ids@)),
        fields_ids(ids_fields(ids@)) == Some(ids@),
{
    let mut fields: Vec<Vec<u8>> = Vec::new();
    let mut i: usize = 0;
    while i < ids.len()
        invariant
            0 <= i <= ids.len(),
            fields@.len() == i,
            forall|k: int| 0 <= k < i ==> (#[trigger] fields@[k])@ == spec_u64_to_le_bytes(ids@[k]),
        decreases ids.len() - i,
    {
        fields.push(u64_to_le_bytes(ids[i]));
        i += 1;
    }
    proof {
        assert(fields_view(fields@) =~= ids_fields(ids@));
        lemma_ids_round_trip(ids@);
        lemma_unframe_frame(ids_fields(ids@));
    }
    frame_fields(&fields)
}

/// The numbers stored under `key`; none where nothing that reads as a list
/// of numbers is stored there.
pub fn read_ids(t: &ByteTable, key: &Vec<u8>) -> (r: Vec<u64>)
    ensures
        r@ == stored_ids(table_entries(*t), key@),
{
    let bytes = match table_get(t, key) {
        Some(bytes) => bytes,
        None => { return Vec::new(); },
    };
    let fields = match unframe_fields(&bytes) {
        Some(fields) => fields,
        None => { return Vec::new(); },
    };
    let mut out: Vec<u64> = Vec::new();
    let mut i: usize = 0;
    while i < fields.len()
        invariant
            0 <= i <= fields.len(),
            out@.len() == i,
            stored_ids(table_entries(*t), key@) == (match fields_ids(fields_view(fields@)) {
                Some(ids) => ids,
                None => Seq::empty(),
            }),
            forall|k: int| 0 <= k < i ==> (#[trigger] fields@[k])@.len() == 8,
            forall|k: int| 0 <= k < i ==> #[trigger] out@[k] == spec_u64_from_le_bytes(fields@[k]@),
        decreases fields.len() - i,
    {
        if fields[i].len() != 8 {
            assert(fields_view(fields@)[i as int].len() != 8);
            return Vec::new();
        }
        out.push(u64_from_le_bytes(fields[i].as_slice()));
        i += 1;
    }
    proof {
        assert forall|k: int| 0 <= k < fields@.len() implies (#[trigger] fields_view(
            fields@,
        )[k]).len() == 8 by {
            assert(fields@[k]@.len() == 8);
        }
        assert(out@ =~= fields_ids(fields_view(fields@))->0);
    }
    out
}

/// The numbers of `ids` other than `id`, in their order.
pub fn drop_id(ids: &Vec<u64>, id: u64) -> (r: Vec<u64>)
    ensures
        r@ == ids@.filter(other_than(id)),
{
    let mut out: Vec<u64> = Vec::new();
    let mut i: usize = 0;
    proof {
        reveal(Seq::filter);
        assert(ids@.take(0) =~= Seq::<u64>::empty());
    }
    while i < ids.len()
        invariant
            0 <= i <= ids.len(),
            out@ == ids@.take(i as int).filter(other_than(id)),
        decreases ids.len() - i,
    {
        proof {
            assert(ids@.take(i as int + 1) =~= ids@.take(i as int).push(ids@[i as int]));
            ids@.take(i as int).lemma_filter_push(ids@[i as int], other_than(id));
        }
        if ids[i] != id {
            out.push(ids[i]);
        }
        i += 1;
    }
    assert(ids@.take(ids@.len() as int) =~= ids@);
    out
}

/// The texts as a list of fields.
pub fn texts_to_fields(texts: &Vec<String>) -> (r: Vec<Vec<u8>>)
    ensures
        fields_view(r@) == texts_fields(texts_view(texts@)),
        writable(texts_fields(texts_view(texts@))),
{
    let mut out: Vec<Vec<u8>> = Vec::new();
    let mut i: usize = 0;
    while i < texts.len()
        invariant
            0 <= i <= texts.len(),
            out@.len() == i,
            forall|k: int| 0 <= k < i ==> (#[trigger] out@[k])@ == encode_utf8(texts@[k]@),
        decreases texts.len() - i,
    {
        out.push(text_bytes(&texts[i]));
        i += 1;
    }
    proof {
        assert(fields_view(out@) =~= texts_fields(texts_view(texts@)));
        assert forall|k: int| 0 <= k < texts@.len() implies (#[trigger] texts_fields(
            texts_view(texts@),
        )[k]).len() <= u64::MAX by {
            assert(out@[k].len() == out@[k]@.len());
        }
    }
    out
}

/// The fields as a list of texts; `None` where one of them is no text.
pub fn texts_from_fields(fields: &Vec<Vec<u8>>) -> (r: Option<Vec<String>>)
    ensures
        r is Some <==> fields_texts(fields_view(fields@)) is Some,
        r is Some ==> texts_view(r->0@) == fields_texts(fields_view(fields@))->0,
{
    let mut out: Vec<String> = Vec::new();
    let mut i: usize = 0;
    while i < fields.len()
        invariant
            0 <= i <= fields.len(),
            out@.len() == i,
            forall|k: int| 0 <= k < i ==> valid_utf8((#[trigger] fields@[k])@),
            forall|k: int| 0 <= k < i ==> (#[trigger] out@[k])@ == decode_utf8(fields@[k]@),
        decreases fields.len() - i,
    {
        match text_from_utf8(fields[i].clone()) {
            Some(text) => {
                out.push(text);
            },
            None => {
                assert(!valid_utf8(fields_view(fields@)[i as int]));
                return None;
            },
        }
        i += 1;
    }
    proof {
        assert forall|k: int| 0 <= k < fields@.len() implies valid_utf8(
            #[trigger] fields_view(fields@)[k],
        ) by {
            assert(valid_utf8(fields@[k]@));
        }
        assert(texts_view(out@) =~= fields_texts(fields_view(fields@))->0);
    }
    Some(out)
}

} // verus!
