//! The command line's batch operations.

use vstd::prelude::*;

use crate::bytes::{bytes_eq, copy_bytes};
use crate::write_batch::{OpView, WriteBatch};

verus! {

/// The word that writes a key: "put".
pub open spec fn put_word() -> Seq<u8> {
    seq![0x70u8, 0x75, 0x74]
}

/// The word that deletes a key: "delete".
pub open spec fn delete_word() -> Seq<u8> {
    seq![0x64u8, 0x65, 0x6c, 0x65, 0x74, 0x65]
}

/// The words of an executable list.
pub open spec fn words(args: Seq<Vec<u8>>) -> Seq<Seq<u8>> {
    Seq::new(args.len(), |i: int| args[i]@)
}

/// All words count, each with all its bytes.
pub proof fn words_are_whole(args: Seq<Vec<u8>>, i: int)
    ensures
        words(args).len() == args.len(),
        0 <= i < args.len() ==> words(args)[i] == args[i]@,
{
}

/// The operations from word `i` on, or where a word stands that is none.
///
/// An operation whose words are not all there ends the list.
pub open spec fn parse_ops(args: Seq<Seq<u8>>, i: int) -> std::result::Result<Seq<OpView>, int>
    decreases args.len() - i,
{
    if i < 0 || args.len() <= i {
        Ok(Seq::empty())
    } else if args[i] == put_word() {
        if i + 2 < args.len() {
            match parse_ops(args, i + 3) {
                Err(at) => Err(at),
                Ok(ops) => Ok(seq![(args[i + 1], Some(args[i + 2]))] + ops),
            }
        } else {
            Ok(Seq::empty())
        }
    } else if args[i] == delete_word() {
        if i + 1 < args.len() {
            match parse_ops(args, i + 2) {
                Err(at) => Err(at),
                Ok(ops) => Ok(seq![(args[i + 1], None)] + ops),
            }
        } else {
            Ok(Seq::empty())
        }
    } else if i + 2 < args.len() {
        Err(i)
    } else {
        Ok(Seq::empty())
    }
}

/// The words that ask for operations: `put <key> <value>` or `delete <key>` for
/// each.
pub open spec fn asking_for(ops: Seq<OpView>) -> Seq<Seq<u8>>
    decreases ops.len(),
{
    if ops.len() == 0 {
        Seq::empty()
    } else {
        (match ops[0].1 {
            Some(value) => seq![seq![0x70u8, 0x75, 0x74], ops[0].0, value],
            None => seq![seq![0x64u8, 0x65, 0x6c, 0x65, 0x74, 0x65], ops[0].0],
        }) + asking_for(ops.drop_first())
    }
}

/// The words that ask for operations are read as these operations, and what is
/// behind them is read on.
proof fn asking_read_on(front: Seq<Seq<u8>>, ops: Seq<OpView>, rest: Seq<Seq<u8>>)
    ensures
        ({
            let all = front + asking_for(ops) + rest;
            let end = (front.len() + asking_for(ops).len()) as int;
            parse_ops(all, front.len() as int) == match parse_ops(all, end) {
                Ok(more) => Ok(ops + more),
                Err(at) => Err(at),
            }
        }),
    decreases ops.len(),
{
    let all = front + asking_for(ops) + rest;
    let i = front.len() as int;
    if ops.len() == 0 {
        assert(all =~= front + rest);
        if parse_ops(all, i) is Ok {
            assert(ops + parse_ops(all, i)->Ok_0 =~= parse_ops(all, i)->Ok_0);
        }
    } else {
        let more = ops.drop_first();
        let first = match ops[0].1 {
            Some(value) => seq![seq![0x70u8, 0x75, 0x74], ops[0].0, value],
            None => seq![seq![0x64u8, 0x65, 0x6c, 0x65, 0x74, 0x65], ops[0].0],
        };
        asking_read_on(front + first, more, rest);
        assert(front + first + asking_for(more) + rest =~= all);
        assert(all[i] == first[0]);
        assert(all[i + 1] == first[1]);
        if ops[0].1 is Some {
            assert(all[i + 2] == first[2]);
        } else {
            assert(put_word().len() != delete_word().len());
        }
        let end = (front.len() + asking_for(ops).len()) as int;
        if parse_ops(all, end) is Ok {
            let tail = parse_ops(all, end)->Ok_0;
            assert(seq![ops[0]] + (more + tail) =~= ops + tail);
        }
    }
}

/// Operations that are written as words are read back: every list of them, each
/// key and value from its own place. Words of an operation that are not all there
/// are left out; a word that is none in front of two others is reported with its
/// place.
pub proof fn words_read_back(ops: Seq<OpView>, rest: Seq<Seq<u8>>)
    ensures
        parse_ops(asking_for(ops), 0) == Ok::<Seq<OpView>, int>(ops),
        ({
            let put: Seq<u8> = seq![0x70, 0x75, 0x74];
            let delete: Seq<u8> = seq![0x64, 0x65, 0x6c, 0x65, 0x74, 0x65];
            let all = asking_for(ops) + rest;
            &&& rest.len() == 1 || (rest.len() == 2 && rest[0] != delete) ==> parse_ops(all, 0)
                == Ok::<Seq<OpView>, int>(ops)
            &&& rest.len() >= 3 && rest[0] != put && rest[0] != delete ==> parse_ops(all, 0)
                == Err::<Seq<OpView>, int>(asking_for(ops).len() as int)
        }),
{
    let none = Seq::<Seq<u8>>::empty();
    let words = asking_for(ops);
    asking_read_on(none, ops, none);
    asking_read_on(none, ops, rest);
    assert(none + words + none =~= words);
    assert(none + words + rest =~= words + rest);
    assert(ops + Seq::<OpView>::empty() =~= ops);
    if rest.len() > 0 {
        assert((words + rest)[words.len() as int] == rest[0]);
    }
}

/// The batch that the words `put <key> <value>` and `delete <key>` ask for, or
/// where a word stands that is no operation.
pub fn parse_batch(args: &Vec<Vec<u8>>) -> (r: std::result::Result<WriteBatch, usize>)
    ensures
        match (r, parse_ops(words(args@), 0)) {
            (Ok(batch), Ok(ops)) => batch@ == ops,
            (Err(i), Err(at)) => i == at && i < args@.len(),
            _ => false,
        },
        forall|ops: Seq<OpView>| #[trigger]
            asking_for(ops) == Seq::new(args@.len(), |i: int| args@[i]@) ==> r is Ok && r->Ok_0@
                == ops,
{
    let ghost all = words(args@);
    proof {
        assert(all =~= Seq::new(args@.len(), |i: int| args@[i]@));
        assert forall|ops: Seq<OpView>| #[trigger] asking_for(ops) == all implies parse_ops(all, 0)
            == Ok::<Seq<OpView>, int>(ops) by {
            words_read_back(ops, Seq::empty());
        }
    }
    let mut put: Vec<u8> = Vec::new();
    put.push(0x70);
    put.push(0x75);
    put.push(0x74);
    assert(put@ =~= put_word());
    let mut delete: Vec<u8> = Vec::new();
    delete.push(0x64);
    delete.push(0x65);
    delete.push(0x6c);
    delete.push(0x65);
    delete.push(0x74);
    delete.push(0x65);
    assert(delete@ =~= delete_word());
    let mut batch = WriteBatch::new();
    let mut i: usize = 0;
    proof {
        if parse_ops(all, 0) is Ok {
            assert(batch@ + parse_ops(all, 0)->Ok_0 =~= parse_ops(all, 0)->Ok_0);
        }
    }
    while i < args.len()
        invariant
            i <= args@.len(),
            all == words(args@),
            all == Seq::new(args@.len(), |i: int| args@[i]@),
            forall|ops: Seq<OpView>| #[trigger]
                asking_for(ops) == all ==> parse_ops(all, 0) == Ok::<Seq<OpView>, int>(ops),
            put@ == put_word(),
            delete@ == delete_word(),
            match (parse_ops(all, 0), parse_ops(all, i as int)) {
                (Ok(ops), Ok(rest)) => batch@ + rest == ops,
                (Err(a), Err(b)) => a == b,
                _ => false,
            },
        decreases args@.len() - i,
    {
        let ghost before = batch@;
        let left = args.len() - i;
        if bytes_eq(args[i].as_slice(), put.as_slice()) {
            if left < 3 {
                assert(before + Seq::<OpView>::empty() =~= before);
                return Ok(batch);
            }
            batch.put(copy_bytes(args[i + 1].as_slice()), copy_bytes(args[i + 2].as_slice()));
            proof {
                let op: OpView = (all[i + 1], Some(all[i + 2]));
                if parse_ops(all, i + 3) is Ok {
                    let rest = parse_ops(all, i + 3)->Ok_0;
                    assert(before + (seq![op] + rest) =~= before.push(op) + rest);
                }
            }
            i = i + 3;
        } else if bytes_eq(args[i].as_slice(), delete.as_slice()) {
            if left < 2 {
                assert(before + Seq::<OpView>::empty() =~= before);
                return Ok(batch);
            }
            batch.delete(copy_bytes(args[i + 1].as_slice()));
            proof {
                let op: OpView = (all[i + 1], None);
                if parse_ops(all, i + 2) is Ok {
                    let rest = parse_ops(all, i + 2)->Ok_0;
                    assert(before + (seq![op] + rest) =~= before.push(op) + rest);
                }
            }
            i = i + 2;
        } else {
            if left > 2 {
                return Err(i);
            }
            assert(before + Seq::<OpView>::empty() =~= before);
            return Ok(batch);
        }
    }
    assert(batch@ + Seq::<OpView>::empty() =~= batch@);
    Ok(batch)
}

} // verus!
