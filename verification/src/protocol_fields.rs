//! A law of the protocol: fields that a client hello does not have change nothing.
use vstd::prelude::*;

use crate::protocol::{decoded_client_hello, default_client_hello, ClientHello, ClientHelloView};
use crate::wire::{
    bytes_at, decoded, key_at, lemma_varint_at_bounds, skip_at, string_at, varint_at, varint_rest,
    Message, WireError,
};

verus! {

/// True where two readings agree: both fail, or both give the same value and end at the same place,
/// counted from `shift` on in the first.
spec fn agree<T>(
    first: Result<(T, int), WireError>,
    second: Result<(T, int), WireError>,
    shift: int,
) -> bool {
    match (first, second) {
        (Ok((v, end)), Ok((w, at))) => v == w && end == at + shift,
        (Err(_), Err(_)) => true,
        _ => false,
    }
}

proof fn lemma_varint_rest_shifts(front: Seq<u8>, bytes: Seq<u8>, pos: int, digits: nat)
    requires
        0 <= pos,
    ensures
        agree(
            varint_rest(front + bytes, front.len() + pos, digits),
            varint_rest(bytes, pos, digits),
            front.len() as int,
        ),
    decreases 10 - digits,
{
    if digits < 10 && pos < bytes.len() {
        assert((front + bytes)[front.len() + pos] == bytes[pos]);
        lemma_varint_rest_shifts(front, bytes, pos + 1, digits + 1);
    }
}

proof fn lemma_reading_shifts(front: Seq<u8>, bytes: Seq<u8>, pos: int, wire: u8)
    requires
        0 <= pos,
        front.len() + bytes.len() <= usize::MAX,
    ensures
        ({
            let n = front.len() as int;
            let all = front + bytes;
            &&& agree(varint_at(all, n + pos), varint_at(bytes, pos), n)
            &&& agree(key_at(all, n + pos), key_at(bytes, pos), n)
            &&& agree(bytes_at(all, n + pos), bytes_at(bytes, pos), n)
            &&& agree(string_at(all, n + pos), string_at(bytes, pos), n)
            &&& match (skip_at(all, n + pos, wire), skip_at(bytes, pos, wire)) {
                (Ok(end), Ok(at)) => end == at + n,
                (Err(_), Err(_)) => true,
                _ => false,
            }
        }),
{
    let n = front.len() as int;
    let all = front + bytes;
    lemma_varint_rest_shifts(front, bytes, pos, 0);
    lemma_varint_at_bounds(bytes, pos);
    if let Ok((value, start)) = varint_at(bytes, pos) {
        let end = start + (value as usize);
        if end <= bytes.len() {
            assert(all.subrange(n + start, n + end) =~= bytes.subrange(start, end));
        }
    }
}

proof fn lemma_varint_rest_extends(bytes: Seq<u8>, behind: Seq<u8>, pos: int, digits: nat)
    requires
        0 <= pos,
        varint_rest(bytes, pos, digits) is Ok,
    ensures
        varint_rest(bytes + behind, pos, digits) == varint_rest(bytes, pos, digits),
    decreases 10 - digits,
{
    assert((bytes + behind)[pos] == bytes[pos]);
    if bytes[pos] >= 128 {
        lemma_varint_rest_extends(bytes, behind, pos + 1, digits + 1);
    }
}

/// What has been read whole is read alike when more bytes follow.
proof fn lemma_reading_extends(bytes: Seq<u8>, behind: Seq<u8>, pos: int, wire: u8)
    requires
        0 <= pos,
    ensures
        ({
            let all = bytes + behind;
            &&& varint_at(bytes, pos) is Ok ==> varint_at(all, pos) == varint_at(bytes, pos)
            &&& key_at(bytes, pos) is Ok ==> key_at(all, pos) == key_at(bytes, pos)
            &&& bytes_at(bytes, pos) is Ok ==> bytes_at(all, pos) == bytes_at(bytes, pos)
                && string_at(all, pos) == string_at(bytes, pos)
            &&& skip_at(bytes, pos, wire) is Ok ==> skip_at(all, pos, wire) == skip_at(
                bytes,
                pos,
                wire,
            )
        }),
{
    let all = bytes + behind;
    if varint_at(bytes, pos) is Ok {
        lemma_varint_rest_extends(bytes, behind, pos, 0);
        lemma_varint_at_bounds(bytes, pos);
        let (value, start) = varint_at(bytes, pos)->Ok_0;
        let end = start + (value as usize);
        if end <= bytes.len() {
            assert(all.subrange(start, end) =~= bytes.subrange(start, end));
        }
    }
}

/// True of bytes that are whole fields from `pos` on, one behind the other.
pub open spec fn whole_fields(bytes: Seq<u8>, pos: int) -> bool
    decreases bytes.len() - pos,
    when 0 <= pos
{
    pos == bytes.len() || match key_at(bytes, pos) {
        Ok(((_, wire), start)) => match skip_at(bytes, start, wire) {
            Ok(next) => pos < next <= bytes.len() && whole_fields(bytes, next),
            Err(_) => false,
        },
        Err(_) => false,
    }
}

/// True of the number and the wire type of a field that a client hello has.
pub open spec fn hello_field(field: u32, wire: u8) -> bool {
    ||| (1 <= field <= 4 || 8 <= field <= 10) && wire == 2
    ||| 5 <= field <= 7 && wire == 0
}

/// True of bytes that are one whole field which a client hello does not have: its number is not
/// known, or it is with another wire type.
pub open spec fn unknown_field(bytes: Seq<u8>) -> bool {
    key_at(bytes, 0) matches Ok(((field, wire), start)) && skip_at(bytes, start, wire) == Ok::<
        int,
        WireError,
    >(bytes.len() as int) && !hello_field(field, wire)
}

/// True where two outcomes agree: both fail, or both give the same.
pub open spec fn same_outcome<T, E>(first: Result<T, E>, second: Result<T, E>) -> bool {
    match (first, second) {
        (Ok(a), Ok(b)) => a == b,
        (Err(_), Err(_)) => true,
        _ => false,
    }
}

/// What fields make of a hello does not depend on what stands before them.
proof fn lemma_hello_shifts(front: Seq<u8>, bytes: Seq<u8>, pos: int, hello: ClientHelloView)
    requires
        0 <= pos,
        front.len() + bytes.len() <= usize::MAX,
    ensures
        same_outcome(
            decoded::<ClientHello>(front + bytes, front.len() + pos, hello),
            decoded::<ClientHello>(bytes, pos, hello),
        ),
    decreases bytes.len() - pos,
{
    let n = front.len() as int;
    let all = front + bytes;
    if pos < bytes.len() {
        lemma_reading_shifts(front, bytes, pos, 0);
        lemma_varint_at_bounds(bytes, pos);
        if let Ok(((field, wire), start)) = key_at(bytes, pos) {
            lemma_reading_shifts(front, bytes, start, wire);
            ClientHello::merged_advances(hello, field, wire, bytes, start);
            let first = ClientHello::merged(hello, field, wire, all, n + start);
            let second = ClientHello::merged(hello, field, wire, bytes, start);
            assert(agree(first, second, n));
            if let Ok((more, next)) = second {
                lemma_hello_shifts(front, bytes, next, more);
            }
        }
    }
}

/// Whole fields in front have their effect first.
proof fn lemma_hello_prefix(bytes: Seq<u8>, behind: Seq<u8>, pos: int, hello: ClientHelloView)
    requires
        0 <= pos <= bytes.len(),
        whole_fields(bytes, pos),
    ensures
        decoded::<ClientHello>(bytes + behind, pos, hello) == (match decoded::<ClientHello>(
            bytes,
            pos,
            hello,
        ) {
            Ok(more) => decoded::<ClientHello>(bytes + behind, bytes.len() as int, more),
            Err(e) => Err(e),
        }),
    decreases bytes.len() - pos,
{
    let all = bytes + behind;
    if pos < bytes.len() {
        let ((field, wire), start) = key_at(bytes, pos)->Ok_0;
        let next = skip_at(bytes, start, wire)->Ok_0;
        lemma_varint_at_bounds(bytes, pos);
        lemma_reading_extends(bytes, behind, pos, 0);
        lemma_reading_extends(bytes, behind, start, wire);
        let merged = ClientHello::merged(hello, field, wire, bytes, start);
        assert(ClientHello::merged(hello, field, wire, all, start) == merged);
        if let Ok((more, end)) = merged {
            assert(end == next);
            lemma_hello_prefix(bytes, behind, next, more);
        }
    }
}

/// What the fields from `pos` on make of a hello.
#[verifier::opaque]
spec fn outcome(bytes: Seq<u8>, pos: int, hello: ClientHelloView) -> Result<
    ClientHelloView,
    WireError,
> {
    decoded::<ClientHello>(bytes, pos, hello)
}

proof fn lemma_outcome_shifts(front: Seq<u8>, bytes: Seq<u8>, hello: ClientHelloView)
    requires
        front.len() + bytes.len() <= usize::MAX,
    ensures
        same_outcome(
            outcome(front + bytes, front.len() as int, hello),
            outcome(bytes, 0, hello),
        ),
{
    reveal(outcome);
    lemma_hello_shifts(front, bytes, 0, hello);
}

proof fn lemma_outcome_prefix(bytes: Seq<u8>, behind: Seq<u8>, hello: ClientHelloView)
    requires
        whole_fields(bytes, 0),
    ensures
        outcome(bytes + behind, 0, hello) == (match outcome(bytes, 0, hello) {
            Ok(more) => outcome(bytes + behind, bytes.len() as int, more),
            Err(e) => Err(e),
        }),
{
    reveal(outcome);
    lemma_hello_prefix(bytes, behind, 0, hello);
}

/// A field that a hello does not have is whole and changes nothing.
proof fn lemma_unknown(unknown: Seq<u8>, hello: ClientHelloView)
    requires
        unknown_field(unknown),
    ensures
        whole_fields(unknown, 0),
        outcome(unknown, 0, hello) == Ok::<ClientHelloView, WireError>(hello),
{
    reveal(outcome);
    let ((field, wire), start) = key_at(unknown, 0)->Ok_0;
    let end = unknown.len() as int;
    lemma_varint_at_bounds(unknown, 0);
    assert(whole_fields(unknown, end));
    assert(decoded::<ClientHello>(unknown, end, hello) == Ok::<ClientHelloView, WireError>(hello));
    assert(ClientHello::merged(hello, field, wire, unknown, start) == Ok::<
        (ClientHelloView, int),
        WireError,
    >((hello, end)));
}

proof fn lemma_same_hello(first: Seq<u8>, second: Seq<u8>)
    requires
        same_outcome(
            outcome(first, 0, default_client_hello()),
            outcome(second, 0, default_client_hello()),
        ),
    ensures
        same_outcome(decoded_client_hello(first), decoded_client_hello(second)),
{
    reveal(outcome);
}

/// A field that a client hello does not have is skipped and changes nothing: hellos with it and
/// without it are both refused, or both say the same. `before` are whole fields; what follows may be
/// anything.
pub proof fn unknown_fields_change_nothing(before: Seq<u8>, unknown: Seq<u8>, behind: Seq<u8>)
    requires
        whole_fields(before, 0),
        unknown_field(unknown),
        before.len() + unknown.len() + behind.len() <= usize::MAX,
    ensures
        same_outcome(
            decoded_client_hello(before + unknown + behind),
            decoded_client_hello(before + behind),
        ),
{
    let empty = default_client_hello();
    let rest = unknown + behind;
    assert(before + unknown + behind =~= before + rest);
    lemma_outcome_prefix(before, rest, empty);
    lemma_outcome_prefix(before, behind, empty);
    if let Ok(hello) = outcome(before, 0, empty) {
        lemma_unknown(unknown, hello);
        lemma_outcome_prefix(unknown, behind, hello);
        lemma_outcome_shifts(before, rest, hello);
        lemma_outcome_shifts(unknown, behind, hello);
        lemma_outcome_shifts(before, behind, hello);
    }
    lemma_same_hello(before + rest, before + behind);
}

} // verus!
