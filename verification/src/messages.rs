//! Classification of received multipart messages into bytes, text or a
//! matrix of byte rows, and the subscriber's handling of broadcasts.
use vstd::prelude::*;
use vstd::utf8::{valid_utf8, decode_utf8};
use vstd::string::StringExecFns;
use crate::util::{read_le_u64, le_value, chunk};

verus! {

/// A received message: one binary part, text made of valid UTF-8 parts, or
/// several binary parts.
#[derive(Debug, Clone)]
#[allow(non_camel_case_types)]
pub enum RecvType {
    bytes(Vec<u8>),
    string(String),
    matrix(Vec<Vec<u8>>),
}

/// Errors of the client's protocol steps, each with the step's number.
#[derive(Debug)]
pub enum ClientError {
    SendFailure(usize),
    UnexpectedRecv(RecvType),
    EncryptionError(usize),
    MutexLockFail(usize),
    UnidentifiedShare(usize),
}

/// The byte contents of the parts.
pub open spec fn parts_view(data: Seq<Vec<u8>>) -> Seq<Seq<u8>> {
    Seq::new(data.len(), |k: int| data[k]@)
}

/// Every part is valid UTF-8.
pub open spec fn all_utf8(data: Seq<Seq<u8>>) -> bool {
    forall|k: int| 0 <= k < data.len() ==> #[trigger] valid_utf8(data[k])
}

/// The text of the parts, decoded one by one and joined.
pub open spec fn joined_text(data: Seq<Seq<u8>>) -> Seq<char>
    decreases data.len(),
{
    if data.len() == 0 {
        Seq::empty()
    } else {
        joined_text(data.drop_last()) + decode_utf8(data.last())
    }
}

/// The message that the parts make, when not taken as the empty message:
/// text when every part is valid UTF-8, else the single part, else the parts.
pub open spec fn parts_message(r: RecvType, data: Seq<Seq<u8>>) -> bool {
    if all_utf8(data) {
        r matches RecvType::string(s) && s@ == joined_text(data)
    } else if data.len() == 1 {
        r matches RecvType::bytes(b) && b@ == data[0]
    } else {
        r matches RecvType::matrix(m) && parts_view(m@) == data
    }
}

/// A single empty part.
pub open spec fn is_empty_message(data: Seq<Seq<u8>>) -> bool {
    data.len() == 1 && data[0].len() == 0
}

/// The message that the parts make, with a single empty part taken as empty bytes.
pub open spec fn message_of(r: RecvType, data: Seq<Seq<u8>>) -> bool {
    if is_empty_message(data) {
        r matches RecvType::bytes(b) && b@ == Seq::<u8>::empty()
    } else {
        parts_message(r, data)
    }
}

/// Decodes `v` as UTF-8 with `std::str::from_utf8`. Trusted: it succeeds
/// exactly on valid UTF-8, as std documents, and then yields the decoded
/// characters.
#[verifier::external_body]
fn utf8_to_string(v: &Vec<u8>) -> (r: Option<String>)
    ensures
        r is Some <==> valid_utf8(v@),
        r matches Some(s) ==> s@ == decode_utf8(v@),
{
    match std::str::from_utf8(v.as_slice()) {
        Ok(s) => Some(s.to_string()),
        Err(_) => None,
    }
}

/// The message that the parts make, without the empty-message case.
pub fn classify_parts(data: Vec<Vec<u8>>) -> (r: RecvType)
    ensures
        parts_message(r, parts_view(data@)),
{
    let ghost pv = parts_view(data@);
    let mut text = String::new();
    let mut is_string = true;
    let mut k: usize = 0;
    while k < data.len()
        invariant
            k <= data.len(),
            pv == parts_view(data@),
            is_string ==> all_utf8(pv.subrange(0, k as int)),
            is_string ==> text@ == joined_text(pv.subrange(0, k as int)),
            !is_string ==> !all_utf8(pv),
            !is_string ==> k == data.len(),
        decreases data.len() - k + (if is_string { 1int } else { 0int }),
    {
        match utf8_to_string(&data[k]) {
            Some(s) => {
                text.append(s.as_str());
                proof {
                    let sub = pv.subrange(0, k + 1);
                    assert(sub.drop_last() =~= pv.subrange(0, k as int));
                    assert(sub.last() == data@[k as int]@);
                    assert forall|q: int| 0 <= q < sub.len() implies #[trigger] valid_utf8(sub[q]) by {
                        if q < k {
                            assert(sub[q] == pv.subrange(0, k as int)[q]);
                            assert(valid_utf8(pv.subrange(0, k as int)[q]));
                        } else {
                            assert(sub[q] == data@[k as int]@);
                        }
                    }
                }
                k = k + 1;
            },
            None => {
                proof {
                    assert(!valid_utf8(pv[k as int]));
                }
                is_string = false;
                k = data.len();
            },
        }
    }
    proof {
        if is_string {
            assert(pv.subrange(0, k as int) =~= pv);
        }
    }
    if !is_string {
        if data.len() == 1 {
            let mut data = data;
            let b = data.pop().unwrap();
            RecvType::bytes(b)
        } else {
            proof {
                assert(parts_view(data@) =~= pv);
            }
            RecvType::matrix(data)
        }
    } else {
        RecvType::string(text)
    }
}

/// The message that the parts make; a single empty part is empty bytes.
pub fn classify(data: Vec<Vec<u8>>) -> (r: RecvType)
    ensures
        message_of(r, parts_view(data@)),
{
    if data.len() == 1 && data[0].len() == 0 {
        return RecvType::bytes(Vec::new());
    }
    classify_parts(data)
}

/// A broadcast with its topic part checked: a single empty part is empty
/// bytes; otherwise the first part must be `topic`, and the rest make the message.
pub fn classify_broadcast(data: Vec<Vec<u8>>, topic: &Vec<u8>) -> (r: Result<RecvType, ()>)
    requires
        data.len() >= 1,
    ensures
        is_empty_message(parts_view(data@)) ==> (r matches Ok(RecvType::bytes(b)) && b@ == Seq::<u8>::empty()),
        !is_empty_message(parts_view(data@)) ==> (r is Ok <==> data@[0]@ == topic@),
        !is_empty_message(parts_view(data@)) ==> (r matches Ok(m) ==> parts_message(m, parts_view(data@).drop_first())),
{
    if data.len() == 1 && data[0].len() == 0 {
        return Ok(RecvType::bytes(Vec::new()));
    }
    let mut data = data;
    let ghost d0 = data@;
    let removed = data.remove(0);
    if !bytes_eq(&removed, topic) {
        return Err(());
    }
    proof {
        assert(parts_view(data@) =~= parts_view(d0).drop_first());
    }
    Ok(classify_parts(data))
}

/// A broadcast split into its topic, the first part, and the message of the rest.
pub fn split_topic(data: Vec<Vec<u8>>) -> (r: (Vec<u8>, RecvType))
    requires
        data.len() >= 1,
    ensures
        r.0@ == data@[0]@,
        message_of(r.1, parts_view(data@).drop_first()),
{
    let mut data = data;
    let ghost d0 = data@;
    let topic = data.remove(0);
    proof {
        assert(parts_view(data@) =~= parts_view(d0).drop_first());
    }
    (topic, classify(data))
}

/// Byte-wise equality.
pub fn bytes_eq(a: &Vec<u8>, b: &Vec<u8>) -> (r: bool)
    ensures
        r <==> a@ == b@,
{
    if a.len() != b.len() {
        return false;
    }
    let mut i: usize = 0;
    while i < a.len()
        invariant
            a.len() == b.len(),
            i <= a.len(),
            forall|k: int| 0 <= k < i ==> a@[k] == b@[k],
        decreases a.len() - i,
    {
        if a[i] != b[i] {
            return false;
        }
        i = i + 1;
    }
    proof {
        assert(a@ =~= b@);
    }
    true
}

/// What the subscriber does with a broadcast.
pub enum SubAction {
    /// The topic was seen before: nothing to do.
    Skip,
    /// Keep the message under its topic, after handing the decoded words,
    /// if any, to the waiting protocol step.
    Store(Option<Vec<u64>>),
    /// Stop with an error.
    Fail(ClientError),
}

/// The decoded words of the first row of a broadcast matrix.
pub open spec fn first_row_words(m: Seq<Vec<u8>>, w: Seq<u64>) -> bool {
    &&& w.len() == m[0]@.len() / 8
    &&& forall|k: int| 0 <= k < w.len() ==> #[trigger] w[k] as nat == le_value(chunk(m[0]@, 8, k))
}

/// The subscriber's decision on a broadcast `data` under `topic`: skip a
/// topic already stored; on the dropout-carrying topics `EC` and `AG`,
/// forward the words of the matrix's first row, and fail on anything but a
/// matrix; store every other message as it is.
pub fn sub_task_step(known: bool, topic: &Vec<u8>, data: &RecvType) -> (r: SubAction)
    requires
        data matches RecvType::matrix(m) ==> m.len() >= 1 && (m[0].len() == 0 || m[0].len() >= 8),
    ensures
        known ==> r is Skip,
        !known && (topic@ == seq![69u8, 67u8] || topic@ == seq![65u8, 71u8]) ==> match data {
            RecvType::matrix(m) => r matches SubAction::Store(Some(w)) && first_row_words(m@, w@),
            _ => r matches SubAction::Fail(ClientError::UnexpectedRecv(_)),
        },
        !known && !(topic@ == seq![69u8, 67u8] || topic@ == seq![65u8, 71u8]) ==> r matches SubAction::Store(None),
{
    if known {
        return SubAction::Skip;
    }
    let ec: Vec<u8> = vec![69u8, 67u8];
    let ag: Vec<u8> = vec![65u8, 71u8];
    proof {
        assert(ec@ =~= seq![69u8, 67u8]);
        assert(ag@ =~= seq![65u8, 71u8]);
    }
    if bytes_eq(topic, &ec) || bytes_eq(topic, &ag) {
        match data {
            RecvType::matrix(m) => {
                let w = read_le_u64(m[0].clone());
                SubAction::Store(Some(w))
            },
            _ => SubAction::Fail(ClientError::UnexpectedRecv(data.clone())),
        }
    } else {
        SubAction::Store(None)
    }
}

} // verus!
