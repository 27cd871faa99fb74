//! One store, generic over the record kind: the full-document read and write,
//! and the list operations the lifecycle is built from. Each function is pure:
//! the caller reads and writes the backing file and hands the content here.

use crate::codec;
use crate::codec::decode_from;
use crate::codec::digits_val;
use crate::codec::spec_encode;
use crate::record::RecModel;
use crate::record::Record;
use crate::record::Removable;
use crate::record::StoreError;
use vstd::prelude::*;
use vstd::string::StrSliceExecFns;
use vstd::string::StringExecFns;

verus! {

/// The first record with the given id, scanning front to back.
pub open spec fn spec_find(l: Seq<RecModel>, id: u32) -> Option<RecModel>
    decreases l.len(),
{
    if l.len() == 0 {
        None
    } else if l[0].id == id {
        Some(l[0])
    } else {
        spec_find(l.drop_first(), id)
    }
}

/// The list with every record of the given id removed, order kept.
pub open spec fn remove_id(l: Seq<RecModel>, id: u32) -> Seq<RecModel>
    decreases l.len(),
{
    if l.len() == 0 {
        Seq::empty()
    } else if l.last().id == id {
        remove_id(l.drop_last(), id)
    } else {
        remove_id(l.drop_last(), id).push(l.last())
    }
}

/// Nothing with the removed id is left behind by remove_id.
pub proof fn lemma_remove_id_absent(l: Seq<RecModel>, id: u32)
    ensures
        forall|k: int|
            0 <= k < remove_id(l, id).len() ==> #[trigger] remove_id(l, id)[k].id != id,
    decreases l.len(),
{
    if l.len() > 0 {
        lemma_remove_id_absent(l.drop_last(), id);
        let prev = remove_id(l.drop_last(), id);
        if l.last().id != id {
            assert forall|k: int| 0 <= k < remove_id(l, id).len() implies #[trigger] remove_id(
                l,
                id,
            )[k].id != id by {
                if k < prev.len() {
                    assert(remove_id(l, id)[k] == prev[k]);
                } else {
                    assert(remove_id(l, id)[k] == l.last());
                }
            }
        }
    }
}

/// Removing an id that no record holds changes nothing.
pub proof fn lemma_remove_id_noop(l: Seq<RecModel>, id: u32)
    requires
        forall|k: int| 0 <= k < l.len() ==> #[trigger] l[k].id != id,
    ensures
        remove_id(l, id) == l,
    decreases l.len(),
{
    if l.len() == 0 {
        assert(remove_id(l, id) =~= l);
    } else {
        lemma_remove_id_noop(l.drop_last(), id);
        assert(l.last().id != id);
        assert(remove_id(l, id) =~= l.drop_last().push(l.last()));
        assert(l.drop_last().push(l.last()) =~= l);
    }
}

/// The whole-document write: the encoded form of the full list. The caller
/// replaces the store file's content with it.
pub fn write_tasks<R: Record>(tasks: &Vec<R>) -> (s: String)
    ensures
        s@ == spec_encode(tasks.deep_view()),
{
    let mut out = String::new();
    let mut k: usize = 0;
    proof {
        reveal_strlit(" ");
        reveal_strlit("\n");
        assert(" "@ =~= seq![' ']);
        assert("\n"@ =~= seq!['\n']);
        assert(tasks.deep_view().take(0) =~= Seq::<RecModel>::empty());
    }
    while k < tasks.len()
        invariant
            k <= tasks.len(),
            tasks.deep_view().len() == tasks@.len(),
            out@ == spec_encode(tasks.deep_view().take(k as int)),
        decreases tasks.len() - k,
    {
        let ghost l = tasks.deep_view();
        let t = &tasks[k];
        append_rec(&mut out, t);
        proof {
            assert(t.deep_view() == l[k as int]);
            assert(l.take(k as int + 1) =~= l.take(k as int) + seq![l[k as int]]);
            codec::lemma_encode_concat(l.take(k as int), seq![l[k as int]]);
            assert(seq![l[k as int]].drop_first() =~= Seq::<RecModel>::empty());
            assert(spec_encode(Seq::<RecModel>::empty()) =~= Seq::<char>::empty());
            assert(spec_encode(seq![l[k as int]]) =~= codec::encode_rec(l[k as int]));
            assert(out@ =~= spec_encode(l.take(k as int + 1)));
        }
        k = k + 1;
    }
    proof {
        assert(tasks.deep_view().take(tasks@.len() as int) =~= tasks.deep_view());
    }
    out
}

/// Appends one record's line to the document being built.
fn append_rec<R: Record>(out: &mut String, t: &R)
    ensures
        final(out)@ == old(out)@ + codec::encode_rec(t.deep_view()),
{
    proof {
        reveal_strlit(" ");
        reveal_strlit("\n");
        assert(" "@ =~= seq![' ']);
        assert("\n"@ =~= seq!['\n']);
    }
    codec::append_dec(out, t.record_id() as u64);
    out.append(" ");
    let d = t.record_description();
    codec::append_dec(out, d.unicode_len() as u64);
    out.append(" ");
    out.append(d);
    out.append("\n");
    proof {
        assert(final(out)@ =~= old(out)@ + codec::encode_rec(t.deep_view()));
    }
}

/// The whole-document read: decodes the store file's content back into the
/// record list. Returns Ok exactly on the documents write_tasks produces (or
/// any other well-formed document) and Corrupt on everything else.
pub fn read_tasks<R: Record>(content: &str) -> (r: Result<Vec<R>, StoreError>)
    ensures
        r is Ok <==> codec::spec_decode(content@) is Some,
        r is Ok ==> r->Ok_0.deep_view() == codec::spec_decode(content@)->Some_0,
        r is Err ==> r->Err_0 == StoreError::Corrupt,
{
    let n = content.unicode_len();
    let mut acc: Vec<R> = Vec::new();
    let mut i: usize = 0;
    proof {
        assert(acc.deep_view() =~= Seq::<RecModel>::empty());
        if decode_from(content@, 0) is Some {
            assert(acc.deep_view() + decode_from(content@, 0)->Some_0 =~= decode_from(
                content@,
                0,
            )->Some_0);
        }
    }
    loop
        invariant
            i <= n,
            n == content@.len(),
            (match decode_from(content@, i as int) {
                Some(t) => decode_from(content@, 0) == Some(acc.deep_view() + t),
                None => decode_from(content@, 0) is None,
            }),
        decreases n - i,
    {
        if i >= n {
            proof {
                assert(decode_from(content@, i as int) == Some(Seq::<RecModel>::empty()));
                assert(acc.deep_view() + Seq::<RecModel>::empty() =~= acc.deep_view());
                assert(decode_from(content@, 0) == Some(acc.deep_view()));
                assert(codec::spec_decode(content@) == Some(acc.deep_view()));
            }
            return Ok(acc);
        }
        // One record's line: id digits, a space, length digits, a space, the
        // description, a newline.
        let e1 = codec::scan_digits(content, i, n);
        if e1 == i || e1 >= n || content.get_char(e1) != ' ' {
            proof {
                assert(decode_from(content@, i as int) is None);
                assert(codec::spec_decode(content@) is None);
            }
            return Err(StoreError::Corrupt);
        }
        let id_val = match codec::parse_dec(content, i, e1) {
            Some(v) => v,
            None => {
                proof {
                    assert(digits_val(content@.subrange(i as int, e1 as int)) > u32::MAX);
                    assert(decode_from(content@, i as int) is None);
                    assert(codec::spec_decode(content@) is None);
                }
                return Err(StoreError::Corrupt);
            },
        };
        if id_val > u32::MAX as u64 {
            return Err(StoreError::Corrupt);
        }
        let e2 = codec::scan_digits(content, e1 + 1, n);
        if e2 == e1 + 1 || e2 >= n || content.get_char(e2) != ' ' {
            return Err(StoreError::Corrupt);
        }
        let len_val = match codec::parse_dec(content, e1 + 1, e2) {
            Some(v) => v,
            None => {
                return Err(StoreError::Corrupt);
            },
        };
        let room: usize = n - e2;
        if room < 2 || len_val > (room - 2) as u64 {
            return Err(StoreError::Corrupt);
        }
        let nn: usize = len_val as usize;
        let d0 = e2 + 1;
        if content.get_char(d0 + nn) != '\n' {
            return Err(StoreError::Corrupt);
        }
        let desc = content.substring_char(d0, d0 + nn).to_owned();
        let rec = R::record_new(id_val as u32, desc);
        proof {
            let ghost old_acc = acc.deep_view();
            let next = d0 + nn + 1;
            assert(decode_from(content@, i as int) == (match decode_from(content@, next as int) {
                Some(t) => Some(seq![rec.deep_view()] + t),
                None => None::<Seq<RecModel>>,
            }));
            if decode_from(content@, next as int) is Some {
                let t = decode_from(content@, next as int)->Some_0;
                assert(old_acc + (seq![rec.deep_view()] + t) =~= (old_acc.push(
                    rec.deep_view(),
                )) + t);
            }
        }
        acc.push(rec);
        i = d0 + nn + 1;
    }
}

/// Appends a record to a store's list: the middle step of a store's
/// read-append-write add, with the read and the write left to the caller.
pub fn add_task<R: Record>(tasks: &mut Vec<R>, task: R)
    ensures
        final(tasks).deep_view() == old(tasks).deep_view().push(task.deep_view()),
{
    let ghost before = tasks.deep_view();
    tasks.push(task);
    proof {
        assert(tasks.deep_view() =~= before.push(task.deep_view()));
    }
}

/// The first record with the given id, as a fresh value; None where the id is
/// absent from the list.
pub fn get_by_id<R: Record>(tasks: &Vec<R>, id: u32) -> (r: Option<R>)
    ensures
        (match r {
            Some(t) => spec_find(tasks.deep_view(), id) == Some(t.deep_view()),
            None => spec_find(tasks.deep_view(), id) is None,
        }),
{
    let ghost l = tasks.deep_view();
    let mut k: usize = 0;
    proof {
        assert(l.skip(0) =~= l);
    }
    while k < tasks.len()
        invariant
            k <= tasks.len(),
            l == tasks.deep_view(),
            l.len() == tasks@.len(),
            spec_find(l, id) == spec_find(l.skip(k as int), id),
        decreases tasks.len() - k,
    {
        proof {
            assert(l.skip(k as int).len() > 0);
            assert(l.skip(k as int)[0] == l[k as int]);
            assert(l.skip(k as int).drop_first() =~= l.skip(k as int + 1));
        }
        let t = &tasks[k];
        if t.record_id() == id {
            let copy = R::record_new(t.record_id(), t.record_description().to_owned());
            return Some(copy);
        }
        k = k + 1;
    }
    proof {
        assert(l.skip(l.len() as int) =~= Seq::<RecModel>::empty());
    }
    None
}

/// The list without the given id: the filter step of a store's
/// read-filter-write delete, with the read and the write left to the caller.
pub fn delete_by_id<R: Removable>(tasks: Vec<R>, id: u32) -> (r: Vec<R>)
    ensures
        r.deep_view() == remove_id(tasks.deep_view(), id),
{
    let ghost l = tasks.deep_view();
    let mut rest = tasks;
    let mut out: Vec<R> = Vec::new();
    let ghost mut k: int = 0;
    proof {
        assert(l.take(0) =~= Seq::<RecModel>::empty());
        assert(out.deep_view() =~= remove_id(l.take(0), id));
        assert(rest.deep_view() =~= l.skip(0));
    }
    while rest.len() > 0
        invariant
            0 <= k,
            k + rest@.len() == l.len(),
            rest.deep_view() =~= l.skip(k),
            out.deep_view() == remove_id(l.take(k), id),
        decreases rest@.len(),
    {
        let ghost out_before = out.deep_view();
        let ghost rv = rest.deep_view();
        let t = rest.remove(0);
        proof {
            assert(t.deep_view() == rv[0]);
            assert(rv[0] == l[k]);
            assert forall|m: int| 0 <= m < rest@.len() implies rest.deep_view()[m] == l.skip(
                k + 1,
            )[m] by {
                assert(rest.deep_view()[m] == rv[m + 1]);
            }
            assert(rest.deep_view() =~= l.skip(k + 1));
            let taken = l.take(k + 1);
            assert(taken.drop_last() =~= l.take(k));
            assert(taken.last() == l[k]);
        }
        if t.record_id() != id {
            out.push(t);
            proof {
                assert(out.deep_view() =~= out_before.push(t.deep_view()));
            }
        }
        proof {
            k = k + 1;
        }
    }
    proof {
        assert(l.take(l.len() as int) =~= l);
    }
    out
}

} // verus!
