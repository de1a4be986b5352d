//! A byte-level codec for the task collection, so that a caller can persist
//! it durably and read it back. The layout is little-endian: the allocator
//! state, a task count, then each task's fields with length-prefixed UTF-8
//! text. Decoding accepts exactly the encodings of well-formed collections.

use vstd::prelude::*;
use vstd::slice::{slice_index_get, slice_subrange, slice_to_vec};
use vstd::string::StrSliceExecFns;
use vstd::utf8::{
    decode_utf8, decode_utf8_encode_utf8, encode_utf8, encode_utf8_decode_utf8,
    encode_utf8_valid_utf8, valid_utf8,
};

use crate::task::{has_id, task_wf, wf_view, Status, Task, TaskModel, TaskVec, TasksView};

verus! {

/// The eight bytes of `x`, least significant first.
pub open spec fn u64_le(x: u64) -> Seq<u8> {
    seq![
        (x & 0xff) as u8,
        ((x >> 8) & 0xff) as u8,
        ((x >> 16) & 0xff) as u8,
        ((x >> 24) & 0xff) as u8,
        ((x >> 32) & 0xff) as u8,
        ((x >> 40) & 0xff) as u8,
        ((x >> 48) & 0xff) as u8,
        ((x >> 56) & 0xff) as u8,
    ]
}

/// The value whose little-endian bytes are `s`.
pub open spec fn u64_of_le(s: Seq<u8>) -> u64
    recommends
        s.len() == 8,
{
    ((s[0] as u64) | ((s[1] as u64) << 8) | ((s[2] as u64) << 16) | ((s[3] as u64) << 24) | ((
    s[4] as u64) << 32) | ((s[5] as u64) << 40) | ((s[6] as u64) << 48) | ((s[7] as u64) << 56))
}

/// Reading back the little-endian bytes of `x` yields `x`.
proof fn lemma_u64_le_round(x: u64)
    ensures
        u64_of_le(u64_le(x)) == x,
{
    let s = u64_le(x);
    assert(((x & 0xff) as u8 as u64) | (((x >> 8) & 0xff) as u8 as u64) << 8 | (((x >> 16)
        & 0xff) as u8 as u64) << 16 | (((x >> 24) & 0xff) as u8 as u64) << 24 | (((x >> 32)
        & 0xff) as u8 as u64) << 32 | (((x >> 40) & 0xff) as u8 as u64) << 40 | (((x >> 48)
        & 0xff) as u8 as u64) << 48 | (((x >> 56) & 0xff) as u8 as u64) << 56 == x)
        by (bit_vector);
}

/// The little-endian encoding is canonical: any eight bytes are the encoding
/// of the value they denote.
proof fn lemma_u64_le_canonical(s: Seq<u8>)
    requires
        s.len() == 8,
    ensures
        u64_le(u64_of_le(s)) == s,
{
    let b0 = s[0];
    let b1 = s[1];
    let b2 = s[2];
    let b3 = s[3];
    let b4 = s[4];
    let b5 = s[5];
    let b6 = s[6];
    let b7 = s[7];
    let x = u64_of_le(s);
    assert(x == (b0 as u64) | ((b1 as u64) << 8) | ((b2 as u64) << 16) | ((b3 as u64) << 24) | ((
    b4 as u64) << 32) | ((b5 as u64) << 40) | ((b6 as u64) << 48) | ((b7 as u64) << 56));
    assert({
        let y = (b0 as u64) | ((b1 as u64) << 8) | ((b2 as u64) << 16) | ((b3 as u64) << 24) | ((
        b4 as u64) << 32) | ((b5 as u64) << 40) | ((b6 as u64) << 48) | ((b7 as u64) << 56);
        (y & 0xff) as u8 == b0 && ((y >> 8) & 0xff) as u8 == b1 && ((y >> 16) & 0xff) as u8 == b2
            && ((y >> 24) & 0xff) as u8 == b3 && ((y >> 32) & 0xff) as u8 == b4 && ((y >> 40)
            & 0xff) as u8 == b5 && ((y >> 48) & 0xff) as u8 == b6 && ((y >> 56) & 0xff) as u8
            == b7
    }) by (bit_vector);
    assert(u64_le(x) =~= s);
}

/// Appends the little-endian bytes of `x`.
fn push_u64_le(out: &mut Vec<u8>, x: u64)
    ensures
        final(out)@ == old(out)@ + u64_le(x),
{
    proof {
        assert((x & 0xff) < 256 && ((x >> 8) & 0xff) < 256 && ((x >> 16) & 0xff) < 256 && ((x
            >> 24) & 0xff) < 256 && ((x >> 32) & 0xff) < 256 && ((x >> 40) & 0xff) < 256 && ((x
            >> 48) & 0xff) < 256 && ((x >> 56) & 0xff) < 256) by (bit_vector);
    }
    out.push((x & 0xff) as u8);
    out.push(((x >> 8) & 0xff) as u8);
    out.push(((x >> 16) & 0xff) as u8);
    out.push(((x >> 24) & 0xff) as u8);
    out.push(((x >> 32) & 0xff) as u8);
    out.push(((x >> 40) & 0xff) as u8);
    out.push(((x >> 48) & 0xff) as u8);
    out.push(((x >> 56) & 0xff) as u8);
    proof {
        assert(out@ =~= old(out)@ + u64_le(x));
    }
}

/// Reads the value whose little-endian bytes sit at `pos`.
fn read_u64_le(bytes: &[u8], pos: usize) -> (x: u64)
    requires
        pos + 8 <= bytes@.len(),
    ensures
        x == u64_of_le(bytes@.subrange(pos as int, pos as int + 8)),
{
    let _n = bytes.len();
    let b0 = *slice_index_get(bytes, pos);
    let b1 = *slice_index_get(bytes, pos + 1);
    let b2 = *slice_index_get(bytes, pos + 2);
    let b3 = *slice_index_get(bytes, pos + 3);
    let b4 = *slice_index_get(bytes, pos + 4);
    let b5 = *slice_index_get(bytes, pos + 5);
    let b6 = *slice_index_get(bytes, pos + 6);
    let b7 = *slice_index_get(bytes, pos + 7);
    let x = (b0 as u64) | ((b1 as u64) << 8) | ((b2 as u64) << 16) | ((b3 as u64) << 24) | ((
    b4 as u64) << 32) | ((b5 as u64) << 40) | ((b6 as u64) << 48) | ((b7 as u64) << 56);
    proof {
        let s = bytes@.subrange(pos as int, pos as int + 8);
        assert(s[0] == b0 && s[1] == b1 && s[2] == b2 && s[3] == b3 && s[4] == b4 && s[5] == b5
            && s[6] == b6 && s[7] == b7);
    }
    x
}

/// The byte tag a status is stored as.
pub open spec fn status_byte(s: Status) -> u8 {
    match s {
        Status::Todo => 0,
        Status::Skip => 1,
        Status::InProgress => 2,
        Status::Done => 3,
    }
}

/// The status a byte tag stands for, if any.
pub open spec fn byte_status(b: u8) -> Option<Status> {
    if b == 0 {
        Some(Status::Todo)
    } else if b == 1 {
        Some(Status::Skip)
    } else if b == 2 {
        Some(Status::InProgress)
    } else if b == 3 {
        Some(Status::Done)
    } else {
        None
    }
}

fn encode_status(s: &Status) -> (r: u8)
    ensures
        r == status_byte(*s),
{
    match s {
        Status::Todo => 0,
        Status::Skip => 1,
        Status::InProgress => 2,
        Status::Done => 3,
    }
}

fn decode_status(b: u8) -> (r: Option<Status>)
    ensures
        r == byte_status(b),
{
    if b == 0 {
        Some(Status::Todo)
    } else if b == 1 {
        Some(Status::Skip)
    } else if b == 2 {
        Some(Status::InProgress)
    } else if b == 3 {
        Some(Status::Done)
    } else {
        None
    }
}

/// A text field on the wire: its UTF-8 byte length, then its UTF-8 bytes.
pub open spec fn encode_str(s: Seq<char>) -> Seq<u8> {
    u64_le(encode_utf8(s).len() as u64) + encode_utf8(s)
}

/// One task on the wire: id, created, updated, status tag, name,
/// description.
pub open spec fn encode_task(t: TaskModel) -> Seq<u8> {
    u64_le(t.id) + u64_le(t.created) + u64_le(t.updated) + seq![status_byte(t.status)]
        + encode_str(t.name) + encode_str(t.description)
}

/// The task records on the wire, in collection order.
pub open spec fn encode_tasks(ts: Seq<TaskModel>) -> Seq<u8>
    decreases ts.len(),
{
    if ts.len() == 0 {
        Seq::empty()
    } else {
        encode_task(ts[0]) + encode_tasks(ts.drop_first())
    }
}

/// A whole collection on the wire: the next id to issue, the task count,
/// then the task records.
pub open spec fn encode_view(v: TasksView) -> Seq<u8> {
    u64_le(v.next_id) + u64_le(v.tasks.len() as u64) + encode_tasks(v.tasks)
}

/// The machine-size side condition under which the wire lengths are exact:
/// every length field fits in its 64 bits. Any collection held in memory
/// satisfies it.
pub open spec fn task_fits(t: TaskModel) -> bool {
    encode_utf8(t.name).len() < 0x1_0000_0000_0000_0000 && encode_utf8(t.description).len()
        < 0x1_0000_0000_0000_0000
}

/// See `task_fits`.
pub open spec fn view_fits(v: TasksView) -> bool {
    v.tasks.len() < 0x1_0000_0000_0000_0000 && forall|i: int|
        0 <= i < v.tasks.len() ==> task_fits(#[trigger] v.tasks[i])
}

/// Appending a task to the sequence appends its record on the wire.
proof fn lemma_encode_tasks_push(ts: Seq<TaskModel>, t: TaskModel)
    ensures
        encode_tasks(ts.push(t)) == encode_tasks(ts) + encode_task(t),
    decreases ts.len(),
{
    let p = ts.push(t);
    assert(p[0] == if ts.len() == 0 {
        t
    } else {
        ts[0]
    });
    if ts.len() == 0 {
        assert(p.drop_first() =~= Seq::<TaskModel>::empty());
        assert(encode_tasks(p) == encode_task(t) + encode_tasks(Seq::<TaskModel>::empty()));
        assert(encode_tasks(p) =~= encode_tasks(ts) + encode_task(t));
    } else {
        assert(p.drop_first() =~= ts.drop_first().push(t));
        lemma_encode_tasks_push(ts.drop_first(), t);
        assert(encode_tasks(p) == encode_task(ts[0]) + (encode_tasks(ts.drop_first())
            + encode_task(t)));
        assert(encode_task(ts[0]) + (encode_tasks(ts.drop_first()) + encode_task(t)) =~= (
        encode_task(ts[0]) + encode_tasks(ts.drop_first())) + encode_task(t));
    }
}

/// One more task in a prefix adds exactly that task's record.
proof fn lemma_encode_tasks_take_step(ts: Seq<TaskModel>, i: int)
    requires
        0 <= i < ts.len(),
    ensures
        encode_tasks(ts.take(i + 1)) == encode_tasks(ts.take(i)) + encode_task(ts[i]),
{
    assert(ts.take(i + 1) =~= ts.take(i).push(ts[i]));
    lemma_encode_tasks_push(ts.take(i), ts[i]);
}

/// Appends a text field: its UTF-8 byte length, then its UTF-8 bytes.
fn push_str_bytes(out: &mut Vec<u8>, s: &str)
    ensures
        final(out)@ == old(out)@ + encode_str(s@),
        encode_utf8(s@).len() < 0x1_0000_0000_0000_0000,
{
    let bytes = s.as_bytes_vec();
    let len = bytes.len();
    push_u64_le(out, len as u64);
    let mut b = bytes;
    out.append(&mut b);
    proof {
        assert(out@ =~= old(out)@ + encode_str(s@));
    }
}

/// Appends one task's record.
fn push_task_bytes(out: &mut Vec<u8>, t: &Task)
    ensures
        final(out)@ == old(out)@ + encode_task(t@),
        task_fits(t@),
{
    push_u64_le(out, t.id());
    push_u64_le(out, t.created());
    push_u64_le(out, t.updated());
    out.push(encode_status(t.status()));
    push_str_bytes(out, t.name());
    push_str_bytes(out, t.description());
    proof {
        assert(out@ =~= old(out)@ + encode_task(t@));
    }
}

/// The bytes at `pos` begin with the record of the text `cs`.
pub open spec fn str_prefix_at(bytes: Seq<u8>, pos: int, cs: Seq<char>) -> bool {
    &&& encode_utf8(cs).len() < 0x1_0000_0000_0000_0000
    &&& pos + encode_str(cs).len() <= bytes.len()
    &&& bytes.subrange(pos, pos + encode_str(cs).len() as int) == encode_str(cs)
}

/// The bytes at `pos` begin with the record of the task `tm`.
pub open spec fn task_prefix_at(bytes: Seq<u8>, pos: int, tm: TaskModel) -> bool {
    &&& task_wf(tm)
    &&& task_fits(tm)
    &&& pos + encode_task(tm).len() <= bytes.len()
    &&& bytes.subrange(pos, pos + encode_task(tm).len() as int) == encode_task(tm)
}

/// Relies on `String::from_utf8`: it succeeds exactly when the bytes are
/// valid UTF-8, and then the string's characters are their decoding.
#[verifier::external_body]
fn string_from_utf8(bytes: Vec<u8>) -> (r: Option<String>)
    ensures
        r is Some <==> valid_utf8(bytes@),
        r matches Some(s) ==> s@ == decode_utf8(bytes@),
{
    String::from_utf8(bytes).ok()
}

/// Reads one length-prefixed text field at `pos`. Succeeds exactly on the
/// encodings `encode_str` produces.
fn decode_str(bytes: &[u8], pos: usize) -> (r: Option<(String, usize)>)
    requires
        pos <= bytes@.len(),
    ensures
        r matches Some(p) ==> ({
            &&& pos < p.1 <= bytes@.len()
            &&& encode_utf8(p.0@).len() < 0x1_0000_0000_0000_0000
            &&& bytes@.subrange(pos as int, p.1 as int) == encode_str(p.0@)
        }),
        forall|cs: Seq<char>|
            #[trigger] str_prefix_at(bytes@, pos as int, cs) ==> (r matches Some(p) && p.0@ == cs
                && p.1 == pos + encode_str(cs).len()),
{
    let len = bytes.len();
    if len - pos < 8 {
        return None;
    }
    let nl = read_u64_le(bytes, pos);
    let p = pos + 8;
    proof {
        assert forall|cs: Seq<char>|
            #[trigger] str_prefix_at(bytes@, pos as int, cs) implies nl == encode_utf8(
            cs,
        ).len() by {
            let e = encode_str(cs);
            let ll = encode_utf8(cs).len() as u64;
            assert(bytes@.subrange(pos as int, pos as int + 8) =~= bytes@.subrange(
                pos as int,
                pos as int + e.len() as int,
            ).subrange(0, 8));
            assert(e.subrange(0, 8) =~= u64_le(ll));
            lemma_u64_le_round(ll);
        }
    }
    if nl > (len - p) as u64 {
        return None;
    }
    let nlu = nl as usize;
    let content = slice_subrange(bytes, p, p + nlu);
    let v = slice_to_vec(content);
    proof {
        assert forall|cs: Seq<char>|
            #[trigger] str_prefix_at(bytes@, pos as int, cs) implies v@ == encode_utf8(cs)
            && valid_utf8(v@) by {
            let e = encode_str(cs);
            assert(v@ =~= bytes@.subrange(pos as int, pos as int + e.len() as int).subrange(
                8,
                e.len() as int,
            ));
            assert(e.subrange(8, e.len() as int) =~= encode_utf8(cs));
            encode_utf8_valid_utf8(cs);
        }
    }
    let s = match string_from_utf8(v) {
        Some(s) => s,
        None => {
            return None;
        },
    };
    proof {
        // The success contract: any text whose record sits here is this one.
        assert forall|cs: Seq<char>|
            #[trigger] str_prefix_at(bytes@, pos as int, cs) implies s@ == cs && p + nlu == pos
            + encode_str(cs).len() by {
            encode_utf8_decode_utf8(cs);
        }
        // The canonicity direction: what was read re-encodes to these bytes.
        let sub8 = bytes@.subrange(pos as int, pos as int + 8);
        lemma_u64_le_canonical(sub8);
        decode_utf8_encode_utf8(bytes@.subrange(p as int, p as int + nlu as int));
        assert(bytes@.subrange(pos as int, p as int + nlu as int) =~= sub8 + bytes@.subrange(
            p as int,
            p as int + nlu as int,
        ));
        assert(encode_utf8(s@).len() as u64 == nl);
        assert(encode_str(s@) == u64_le(nl) + encode_utf8(s@));
    }
    Some((s, p + nlu))
}

/// Where each field of a task record lies, when the record of `tm` sits at
/// `pos`.
#[verifier::rlimit(100)]
proof fn lemma_task_prefix_fields(bytes: Seq<u8>, pos: int, tm: TaskModel)
    requires
        0 <= pos,
        task_prefix_at(bytes, pos, tm),
    ensures
        pos + 25 <= bytes.len(),
        u64_of_le(bytes.subrange(pos, pos + 8)) == tm.id,
        u64_of_le(bytes.subrange(pos + 8, pos + 16)) == tm.created,
        u64_of_le(bytes.subrange(pos + 16, pos + 24)) == tm.updated,
        bytes[pos + 24] == status_byte(tm.status),
        str_prefix_at(bytes, pos + 25, tm.name),
        str_prefix_at(bytes, pos + 25 + encode_str(tm.name).len(), tm.description),
        encode_task(tm).len() == 25 + encode_str(tm.name).len() + encode_str(
            tm.description,
        ).len(),
{
    let e = encode_task(tm);
    let whole = bytes.subrange(pos, pos + e.len() as int);
    let en = encode_str(tm.name);
    let ed = encode_str(tm.description);
    let head = u64_le(tm.id) + u64_le(tm.created) + u64_le(tm.updated) + seq![
        status_byte(tm.status),
    ];
    assert(head.len() == 25);
    assert(bytes.subrange(pos, pos + 8) =~= whole.subrange(0, 8));
    assert(whole.subrange(0, 8) =~= u64_le(tm.id));
    lemma_u64_le_round(tm.id);
    assert(bytes.subrange(pos + 8, pos + 16) =~= whole.subrange(8, 16));
    assert(whole.subrange(8, 16) =~= u64_le(tm.created));
    lemma_u64_le_round(tm.created);
    assert(bytes.subrange(pos + 16, pos + 24) =~= whole.subrange(16, 24));
    assert(whole.subrange(16, 24) =~= u64_le(tm.updated));
    lemma_u64_le_round(tm.updated);
    assert(bytes[pos + 24] == whole[24]);
    assert(whole[24] == status_byte(tm.status));
    assert(e =~= head + (en + ed));
    assert forall|k: int|
        0 <= k < en.len() implies bytes.subrange(pos + 25, pos + 25 + en.len() as int)[k]
        == en[k] by {
        assert(bytes[pos + 25 + k] == whole[25 + k]);
        assert(whole[25 + k] == (head + (en + ed))[25 + k]);
        assert((head + (en + ed))[25 + k] == (en + ed)[k]);
        assert((en + ed)[k] == en[k]);
    }
    assert(bytes.subrange(pos + 25, pos + 25 + en.len() as int) =~= en);
    let pd = pos + 25 + en.len() as int;
    assert forall|k: int|
        0 <= k < ed.len() implies bytes.subrange(pd, pd + ed.len() as int)[k] == ed[k] by {
        assert(bytes[pd + k] == whole[25 + en.len() + k]);
        assert(whole[25 + en.len() + k] == (head + (en + ed))[25 + en.len() + k]);
        assert((head + (en + ed))[25 + en.len() + k] == (en + ed)[en.len() + k]);
        assert((en + ed)[en.len() + k] == ed[k]);
    }
    assert(bytes.subrange(pd, pd + ed.len() as int) =~= ed);
}

/// A task record is the concatenation of its field encodings.
proof fn lemma_assemble_task(bytes: Seq<u8>, pos: int, p2: int, p3: int, tm: TaskModel)
    requires
        0 <= pos,
        pos + 25 <= p2 <= p3 <= bytes.len(),
        u64_le(tm.id) == bytes.subrange(pos, pos + 8),
        u64_le(tm.created) == bytes.subrange(pos + 8, pos + 16),
        u64_le(tm.updated) == bytes.subrange(pos + 16, pos + 24),
        status_byte(tm.status) == bytes[pos + 24],
        bytes.subrange(pos + 25, p2) == encode_str(tm.name),
        bytes.subrange(p2, p3) == encode_str(tm.description),
    ensures
        bytes.subrange(pos, p3) == encode_task(tm),
{
    assert(bytes.subrange(pos, p3) =~= bytes.subrange(pos, pos + 8) + bytes.subrange(
        pos + 8,
        pos + 16,
    ) + bytes.subrange(pos + 16, pos + 24) + seq![bytes[pos + 24]] + bytes.subrange(pos + 25, p2)
        + bytes.subrange(p2, p3));
}

/// The records of a sequence split anywhere the sequence does.
proof fn lemma_encode_tasks_split(ts: Seq<TaskModel>, i: int)
    requires
        0 <= i <= ts.len(),
    ensures
        encode_tasks(ts) == encode_tasks(ts.take(i)) + encode_tasks(ts.skip(i)),
    decreases i,
{
    if i == 0 {
        assert(ts.take(0) =~= Seq::<TaskModel>::empty());
        assert(ts.skip(0) =~= ts);
        assert(encode_tasks(ts.take(0)) + encode_tasks(ts) =~= encode_tasks(ts));
    } else {
        let d = ts.drop_first();
        lemma_encode_tasks_split(d, i - 1);
        assert(ts.take(i)[0] == ts[0]);
        assert(ts.take(i).drop_first() =~= d.take(i - 1));
        assert(ts.skip(i) =~= d.skip(i - 1));
        assert(encode_tasks(ts.take(i)) == encode_task(ts[0]) + encode_tasks(d.take(i - 1)));
        assert(encode_tasks(ts) == encode_task(ts[0]) + encode_tasks(d));
        assert(encode_task(ts[0]) + (encode_tasks(d.take(i - 1)) + encode_tasks(d.skip(i - 1)))
            =~= (encode_task(ts[0]) + encode_tasks(d.take(i - 1))) + encode_tasks(d.skip(i - 1)));
    }
}

/// Every task record takes at least one byte on the wire.
proof fn lemma_encode_tasks_len_lower(ts: Seq<TaskModel>)
    ensures
        encode_tasks(ts).len() >= ts.len(),
    decreases ts.len(),
{
    if ts.len() > 0 {
        lemma_encode_tasks_len_lower(ts.drop_first());
    }
}

/// Where the record of the `i`th task lies inside a whole encoded
/// collection.
#[verifier::rlimit(100)]
proof fn lemma_view_task_window(v: TasksView, i: int)
    requires
        0 <= i < v.tasks.len(),
    ensures
        ({
            let b = encode_view(v);
            let head = 16 + encode_tasks(v.tasks.take(i)).len() as int;
            let rec = encode_task(v.tasks[i]);
            &&& head + rec.len() <= b.len()
            &&& b.subrange(head, head + rec.len() as int) == rec
            &&& 16 + encode_tasks(v.tasks.take(i + 1)).len() == head + rec.len()
        }),
{
    let b = encode_view(v);
    let head = 16 + encode_tasks(v.tasks.take(i)).len() as int;
    let rec = encode_task(v.tasks[i]);
    lemma_encode_tasks_split(v.tasks, i);
    assert(v.tasks.skip(i)[0] == v.tasks[i]);
    assert(v.tasks.skip(i).drop_first() =~= v.tasks.skip(i + 1));
    assert(encode_tasks(v.tasks.skip(i)) == rec + encode_tasks(v.tasks.skip(i + 1)));
    lemma_encode_tasks_take_step(v.tasks, i);
    let lead = u64_le(v.next_id) + u64_le(v.tasks.len() as u64) + encode_tasks(v.tasks.take(i));
    assert(lead.len() == head);
    assert(b =~= lead + (rec + encode_tasks(v.tasks.skip(i + 1))));
    assert forall|k: int| 0 <= k < rec.len() implies b.subrange(head, head + rec.len() as int)[k]
        == rec[k] by {
        assert(b[head + k] == (lead + (rec + encode_tasks(v.tasks.skip(i + 1))))[head + k]);
        assert((lead + (rec + encode_tasks(v.tasks.skip(i + 1))))[head + k] == (rec
            + encode_tasks(v.tasks.skip(i + 1)))[k]);
        assert((rec + encode_tasks(v.tasks.skip(i + 1)))[k] == rec[k]);
    }
    assert(b.subrange(head, head + rec.len() as int) =~= rec);
}

/// Whether some held task already has this id.
fn contains_id_vec(tasks: &Vec<Task>, id: u64) -> (r: bool)
    ensures
        r == has_id(tasks@.map_values(|t: Task| t@), id),
{
    let ghost models = tasks@.map_values(|t: Task| t@);
    let n = tasks.len();
    let mut i: usize = 0;
    while i < n
        invariant
            n == tasks@.len(),
            i <= n,
            models == tasks@.map_values(|t: Task| t@),
            forall|j: int| 0 <= j < i ==> (#[trigger] models[j]).id != id,
        decreases n - i,
    {
        if tasks[i].id() == id {
            proof {
                assert(models[i as int].id == id);
            }
            return true;
        }
        i = i + 1;
    }
    proof {
        assert(!has_id(models, id));
    }
    false
}

/// Reads one task record at `pos`. Succeeds exactly on the records of
/// well-formed tasks, as `encode_task` writes them.
#[verifier::rlimit(100)]
fn decode_task(bytes: &[u8], pos: usize) -> (r: Option<(Task, usize)>)
    requires
        pos <= bytes@.len(),
    ensures
        r matches Some(p) ==> ({
            &&& pos < p.1 <= bytes@.len()
            &&& task_wf(p.0@)
            &&& task_fits(p.0@)
            &&& bytes@.subrange(pos as int, p.1 as int) == encode_task(p.0@)
        }),
        forall|tm: TaskModel|
            #[trigger] task_prefix_at(bytes@, pos as int, tm) ==> (r matches Some(p) && p.0@ == tm
                && p.1 == pos + encode_task(tm).len()),
{
    let len = bytes.len();
    if len - pos < 25 {
        return None;
    }
    let id = read_u64_le(bytes, pos);
    let created = read_u64_le(bytes, pos + 8);
    let updated = read_u64_le(bytes, pos + 16);
    let sb = *slice_index_get(bytes, pos + 24);
    let p1 = pos + 25;
    proof {
        assert forall|tm: TaskModel| #[trigger] task_prefix_at(bytes@, pos as int, tm) implies id
            == tm.id && created == tm.created && updated == tm.updated && sb == status_byte(
            tm.status,
        ) && str_prefix_at(bytes@, p1 as int, tm.name) by {
            lemma_task_prefix_fields(bytes@, pos as int, tm);
        }
    }
    if updated < created {
        return None;
    }
    let status = match decode_status(sb) {
        Some(s) => s,
        None => {
            return None;
        },
    };
    let rn = decode_str(bytes, p1);
    let (name, p2) = match rn {
        Some(x) => x,
        None => {
            return None;
        },
    };
    proof {
        assert forall|tm: TaskModel|
            #[trigger] task_prefix_at(bytes@, pos as int, tm) implies str_prefix_at(
            bytes@,
            p2 as int,
            tm.description,
        ) by {
            lemma_task_prefix_fields(bytes@, pos as int, tm);
            assert(p2 == p1 + encode_str(tm.name).len());
        }
    }
    let rd = decode_str(bytes, p2);
    let (desc, p3) = match rd {
        Some(x) => x,
        None => {
            return None;
        },
    };
    let t = Task::from_parts(id, name, desc, status, created, updated);
    proof {
        // Canonicity: the consumed bytes re-encode from the task read back.
        lemma_u64_le_canonical(bytes@.subrange(pos as int, pos as int + 8));
        lemma_u64_le_canonical(bytes@.subrange(pos as int + 8, pos as int + 16));
        lemma_u64_le_canonical(bytes@.subrange(pos as int + 16, pos as int + 24));
        assert(status_byte(t@.status) == sb);
        lemma_assemble_task(bytes@, pos as int, p2 as int, p3 as int, t@);
        // Completeness: any task whose record sits here is the one read back.
        assert forall|tm: TaskModel| #[trigger] task_prefix_at(bytes@, pos as int, tm) implies t@
            =~= tm && p3 == pos + encode_task(tm).len() by {
            lemma_task_prefix_fields(bytes@, pos as int, tm);
            assert(byte_status(status_byte(tm.status)) == Some(tm.status));
        }
    }
    Some((t, p3))
}

impl TaskVec {
    /// The collection's durable form; `from_bytes` reads it back. The result
    /// is exactly `encode_view` of the model.
    pub fn to_bytes(&self) -> (r: Vec<u8>)
        ensures
            r@ == encode_view(self@),
            view_fits(self@),
    {
        let mut out: Vec<u8> = Vec::new();
        push_u64_le(&mut out, self.next_id());
        let n = self.len();
        push_u64_le(&mut out, n as u64);
        proof {
            assert(out@ =~= u64_le(self@.next_id) + u64_le(n as u64) + encode_tasks(
                self@.tasks.take(0),
            ));
        }
        let mut i: usize = 0;
        while i < n
            invariant
                n == self@.tasks.len(),
                i <= n,
                out@ == u64_le(self@.next_id) + u64_le(n as u64) + encode_tasks(
                    self@.tasks.take(i as int),
                ),
                forall|j: int| 0 <= j < i ==> task_fits(#[trigger] self@.tasks[j]),
            decreases n - i,
        {
            push_task_bytes(&mut out, self.get(i));
            proof {
                lemma_encode_tasks_take_step(self@.tasks, i as int);
                assert(out@ =~= u64_le(self@.next_id) + u64_le(n as u64) + encode_tasks(
                    self@.tasks.take(i as int + 1),
                ));
            }
            i = i + 1;
        }
        proof {
            assert(self@.tasks.take(n as int) =~= self@.tasks);
        }
        out
    }

    /// Reads a collection back from its durable form. Succeeds exactly on
    /// the encodings of well-formed collections, and then yields the one
    /// collection encoded: decoding what `to_bytes` wrote restores the
    /// model.
    #[verifier::rlimit(100)]
    pub fn from_bytes(bytes: &[u8]) -> (r: Option<TaskVec>)
        ensures
            r matches Some(c) ==> is_encoding_of(bytes@, c@),
            forall|v: TasksView|
                #[trigger] is_encoding_of(bytes@, v) ==> (r matches Some(c) && c@ == v),
    {
        let len = bytes.len();
        if len < 16 {
            return None;
        }
        let next_id = read_u64_le(bytes, 0);
        let count = read_u64_le(bytes, 8);
        proof {
            assert forall|v: TasksView| #[trigger] is_encoding_of(bytes@, v) implies next_id
                == v.next_id && count == v.tasks.len() by {
                assert(bytes@.subrange(0, 8) =~= u64_le(v.next_id));
                lemma_u64_le_round(v.next_id);
                assert(bytes@.subrange(8, 16) =~= u64_le(v.tasks.len() as u64));
                lemma_u64_le_round(v.tasks.len() as u64);
            }
        }
        if count > (len - 16) as u64 {
            proof {
                assert forall|v: TasksView| #[trigger] is_encoding_of(bytes@, v) implies false by {
                    lemma_encode_tasks_len_lower(v.tasks);
                }
            }
            return None;
        }
        let n = count as usize;
        let mut tasks: Vec<Task> = Vec::new();
        let mut pos: usize = 16;
        let mut i: usize = 0;
        proof {
            assert(tasks@.map_values(|t: Task| t@) =~= Seq::<TaskModel>::empty());
            assert(bytes@.subrange(16, 16) =~= encode_tasks(tasks@.map_values(|t: Task| t@)));
            assert forall|v: TasksView| #[trigger] is_encoding_of(bytes@, v) implies tasks@
                .map_values(|t: Task| t@) == v.tasks.take(0) by {
                assert(v.tasks.take(0) =~= Seq::<TaskModel>::empty());
            }
        }
        while i < n
            invariant
                len == bytes@.len(),
                16 <= pos <= len,
                i == tasks@.len(),
                i <= n,
                ({
                    let models = tasks@.map_values(|t: Task| t@);
                    &&& bytes@.subrange(16, pos as int) == encode_tasks(models)
                    &&& forall|j: int|
                        0 <= j < models.len() ==> task_wf(#[trigger] models[j]) && task_fits(
                            models[j],
                        ) && models[j].id < next_id
                    &&& forall|p: int, q: int|
                        0 <= p < q < models.len() ==> models[p].id != models[q].id
                }),
                forall|v: TasksView|
                    #[trigger] is_encoding_of(bytes@, v) ==> (n == v.tasks.len() && next_id
                        == v.next_id && tasks@.map_values(|t: Task| t@) == v.tasks.take(i as int)
                        && pos == 16 + encode_tasks(v.tasks.take(i as int)).len()),
            decreases n - i,
        {
            proof {
                assert forall|v: TasksView| #[trigger] is_encoding_of(bytes@, v) implies
                    task_prefix_at(bytes@, pos as int, v.tasks[i as int]) by {
                    lemma_view_task_window(v, i as int);
                }
            }
            let ro = decode_task(bytes, pos);
            let (t, p2) = match ro {
                Some(x) => x,
                None => {
                    return None;
                },
            };
            proof {
                assert forall|v: TasksView| #[trigger] is_encoding_of(bytes@, v) implies t@
                    == v.tasks[i as int] && p2 == pos + encode_task(v.tasks[i as int]).len() by {
                    assert(task_prefix_at(bytes@, pos as int, v.tasks[i as int]));
                }
            }
            if t.id() >= next_id {
                return None;
            }
            let ghost models = tasks@.map_values(|t: Task| t@);
            if contains_id_vec(&tasks, t.id()) {
                proof {
                    assert forall|v: TasksView|
                        #[trigger] is_encoding_of(bytes@, v) implies false by {
                        let j = choose|j: int|
                            0 <= j < models.len() && (#[trigger] models[j]).id == t@.id;
                        assert(v.tasks.take(i as int)[j] == v.tasks[j]);
                        assert(v.tasks[j].id == v.tasks[i as int].id);
                    }
                }
                return None;
            }
            tasks.push(t);
            proof {
                assert(tasks@.map_values(|t: Task| t@) =~= models.push(t@));
                lemma_encode_tasks_push(models, t@);
                assert(bytes@.subrange(16, p2 as int) =~= bytes@.subrange(16, pos as int)
                    + bytes@.subrange(pos as int, p2 as int));
                assert forall|v: TasksView| #[trigger] is_encoding_of(bytes@, v) implies tasks@
                    .map_values(|t: Task| t@) == v.tasks.take(i as int + 1) && p2 == 16
                    + encode_tasks(v.tasks.take(i as int + 1)).len() by {
                    lemma_view_task_window(v, i as int);
                    assert(v.tasks.take(i as int + 1) =~= v.tasks.take(i as int).push(
                        v.tasks[i as int],
                    ));
                }
            }
            pos = p2;
            i = i + 1;
        }
        if pos != len {
            proof {
                assert forall|v: TasksView| #[trigger] is_encoding_of(bytes@, v) implies false by {
                    assert(v.tasks.take(n as int) =~= v.tasks);
                }
            }
            return None;
        }
        let c = TaskVec::from_parts(tasks, next_id);
        proof {
            lemma_u64_le_canonical(bytes@.subrange(0, 8));
            lemma_u64_le_canonical(bytes@.subrange(8, 16));
            assert(bytes@ =~= bytes@.subrange(0, 8) + bytes@.subrange(8, 16) + bytes@.subrange(
                16,
                len as int,
            ));
            assert(c@.tasks.len() as u64 == count);
            assert(bytes@ =~= encode_view(c@));
            assert forall|v: TasksView| #[trigger] is_encoding_of(bytes@, v) implies c@ =~= v by {
                assert(v.tasks.take(n as int) =~= v.tasks);
            }
        }
        Some(c)
    }
}

/// The bytes are the durable form of the well-formed collection `v`.
pub open spec fn is_encoding_of(bytes: Seq<u8>, v: TasksView) -> bool {
    &&& wf_view(v)
    &&& view_fits(v)
    &&& bytes == encode_view(v)
}

/// Two texts whose records sit at the same place are the same text.
proof fn lemma_str_prefix_deterministic(bytes: Seq<u8>, pos: int, cs1: Seq<char>, cs2: Seq<char>)
    requires
        0 <= pos,
        str_prefix_at(bytes, pos, cs1),
        str_prefix_at(bytes, pos, cs2),
    ensures
        cs1 == cs2,
{
    let e1 = encode_utf8(cs1);
    let e2 = encode_utf8(cs2);
    let l1 = e1.len() as u64;
    let l2 = e2.len() as u64;
    assert(bytes.subrange(pos, pos + 8) =~= bytes.subrange(
        pos,
        pos + encode_str(cs1).len() as int,
    ).subrange(0, 8));
    assert(encode_str(cs1).subrange(0, 8) =~= u64_le(l1));
    assert(bytes.subrange(pos, pos + 8) =~= bytes.subrange(
        pos,
        pos + encode_str(cs2).len() as int,
    ).subrange(0, 8));
    assert(encode_str(cs2).subrange(0, 8) =~= u64_le(l2));
    lemma_u64_le_round(l1);
    lemma_u64_le_round(l2);
    assert(e1.len() == e2.len());
    assert forall|k: int| 0 <= k < e1.len() implies e1[k] == e2[k] by {
        assert(e1[k] == encode_str(cs1)[8 + k]);
        assert(encode_str(cs1)[8 + k] == bytes[pos + 8 + k]);
        assert(bytes[pos + 8 + k] == encode_str(cs2)[8 + k]);
        assert(encode_str(cs2)[8 + k] == e2[k]);
    }
    assert(e1 =~= e2);
    encode_utf8_decode_utf8(cs1);
    encode_utf8_decode_utf8(cs2);
}

/// Two tasks whose records sit at the same place are the same task.
proof fn lemma_task_prefix_deterministic(bytes: Seq<u8>, pos: int, t1: TaskModel, t2: TaskModel)
    requires
        0 <= pos,
        task_prefix_at(bytes, pos, t1),
        task_prefix_at(bytes, pos, t2),
    ensures
        t1 == t2,
{
    lemma_task_prefix_fields(bytes, pos, t1);
    lemma_task_prefix_fields(bytes, pos, t2);
    assert(byte_status(status_byte(t1.status)) == Some(t1.status));
    assert(byte_status(status_byte(t2.status)) == Some(t2.status));
    lemma_str_prefix_deterministic(bytes, pos + 25, t1.name, t2.name);
    lemma_str_prefix_deterministic(
        bytes,
        pos + 25 + encode_str(t1.name).len() as int,
        t1.description,
        t2.description,
    );
    assert(t1 =~= t2);
}

/// The first `i` tasks of two collections sharing one byte image agree.
proof fn lemma_tasks_prefix_deterministic(bytes: Seq<u8>, v1: TasksView, v2: TasksView, i: int)
    requires
        is_encoding_of(bytes, v1),
        is_encoding_of(bytes, v2),
        v1.tasks.len() == v2.tasks.len(),
        0 <= i <= v1.tasks.len(),
    ensures
        v1.tasks.take(i) == v2.tasks.take(i),
        encode_tasks(v1.tasks.take(i)).len() == encode_tasks(v2.tasks.take(i)).len(),
    decreases i,
{
    if i == 0 {
        assert(v1.tasks.take(0) =~= v2.tasks.take(0));
    } else {
        lemma_tasks_prefix_deterministic(bytes, v1, v2, i - 1);
        lemma_view_task_window(v1, i - 1);
        lemma_view_task_window(v2, i - 1);
        let head = 16 + encode_tasks(v1.tasks.take(i - 1)).len() as int;
        assert(task_prefix_at(bytes, head, v1.tasks[i - 1]));
        assert(task_prefix_at(bytes, head, v2.tasks[i - 1]));
        lemma_task_prefix_deterministic(bytes, head, v1.tasks[i - 1], v2.tasks[i - 1]);
        assert(v1.tasks.take(i) =~= v1.tasks.take(i - 1).push(v1.tasks[i - 1]));
        assert(v2.tasks.take(i) =~= v2.tasks.take(i - 1).push(v2.tasks[i - 1]));
        lemma_encode_tasks_take_step(v1.tasks, i - 1);
        lemma_encode_tasks_take_step(v2.tasks, i - 1);
    }
}

/// Law: a byte image is the durable form of at most one well-formed
/// collection, so loading what was saved restores the one collection that
/// was saved: same tasks with the same fields, and the same id allocator.
pub proof fn lemma_encoding_is_injective(bytes: Seq<u8>, v1: TasksView, v2: TasksView)
    requires
        is_encoding_of(bytes, v1),
        is_encoding_of(bytes, v2),
    ensures
        v1 == v2,
{
    assert(bytes.subrange(0, 8) =~= u64_le(v1.next_id));
    assert(bytes.subrange(0, 8) =~= u64_le(v2.next_id));
    lemma_u64_le_round(v1.next_id);
    lemma_u64_le_round(v2.next_id);
    assert(bytes.subrange(8, 16) =~= u64_le(v1.tasks.len() as u64));
    assert(bytes.subrange(8, 16) =~= u64_le(v2.tasks.len() as u64));
    lemma_u64_le_round(v1.tasks.len() as u64);
    lemma_u64_le_round(v2.tasks.len() as u64);
    assert(v1.tasks.len() == v2.tasks.len());
    lemma_tasks_prefix_deterministic(bytes, v1, v2, v1.tasks.len() as int);
    assert(v1.tasks.take(v1.tasks.len() as int) =~= v1.tasks);
    assert(v2.tasks.take(v2.tasks.len() as int) =~= v2.tasks);
    assert(v1 =~= v2);
}

} // verus!
