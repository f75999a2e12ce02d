//! The encoding of a chain and of a ledger, and how they are read back.
use crate::block::{
    decode_block_at, lemma_block_unique, spec_blocks, spec_encode_block, Block, BlockView,
};
use crate::bytes::{
    append_bytes, lemma_concat_agree, lemma_concat_push, lemma_concat_take,
    lemma_u64_le_injective, spec_concat, spec_is_at, spec_prefix_free, u64_le_at, DecodeError,
};
use crate::ledger::LedgerView;
use crate::state::{decode_state_at, lemma_state_unique, spec_encode_state, Balances};
use vstd::bytes::{lemma_auto_spec_u64_to_from_le_bytes, spec_u64_to_le_bytes, u64_to_le_bytes};
use vstd::prelude::*;

verus! {

/// The encodings of the blocks, each by itself.
pub open spec fn spec_block_parts(chain: Seq<BlockView>) -> Seq<Seq<u8>> {
    Seq::new(chain.len(), |i: int| spec_encode_block(chain[i]))
}

/// The encoding of a chain: the number of blocks as a little-endian `u64`,
/// then the blocks in order.
pub open spec fn spec_encode_chain(chain: Seq<BlockView>) -> Seq<u8> {
    spec_u64_to_le_bytes(chain.len() as u64) + spec_concat(spec_block_parts(chain))
}

/// The encoding of a ledger: the chain, then the state.
pub open spec fn spec_encode_ledger(ledger: LedgerView) -> Seq<u8> {
    spec_encode_chain(ledger.chain) + spec_encode_state(ledger.state)
}

/// The chain is one that a machine can hold: the number of its blocks, and
/// of the transactions of each, is a `u64`.
pub open spec fn spec_encodable_chain(chain: Seq<BlockView>) -> bool {
    &&& chain.len() <= u64::MAX
    &&& forall|i: int| 0 <= i < chain.len() ==> (#[trigger] chain[i]).transactions.len() <= u64::MAX
}

/// The ledger is one that a machine can hold.
pub open spec fn spec_encodable(ledger: LedgerView) -> bool {
    spec_encodable_chain(ledger.chain) && ledger.state.len() <= u64::MAX
}

/// No encoding of a block is the beginning of the encoding of another.
pub proof fn lemma_block_parts_prefix_free(a: Seq<BlockView>, b: Seq<BlockView>)
    requires
        spec_encodable_chain(a),
        spec_encodable_chain(b),
    ensures
        spec_prefix_free(spec_block_parts(a), spec_block_parts(b)),
{
    let pa = spec_block_parts(a);
    let pb = spec_block_parts(b);
    assert forall|i: int, j: int|
        0 <= i < pa.len() && 0 <= j < pb.len() && (#[trigger] pa[i]).is_prefix_of(
            #[trigger] pb[j],
        ) implies pa[i] == pb[j] by {
        let x = spec_encode_block(a[i]);
        let y = spec_encode_block(b[j]);
        assert(y.subrange(0, y.len() as int) =~= y);
        lemma_block_unique(y, 0, x.len() as int, a[i], y.len() as int, b[j]);
    }
}

/// Where the parts of an encoded chain stand.
pub proof fn lemma_chain_at(bytes: Seq<u8>, at: int, end: int, chain: Seq<BlockView>)
    requires
        spec_is_at(bytes, at, end, spec_encode_chain(chain)),
    ensures
        at + 8 <= end,
        bytes.subrange(at, at + 8) == spec_u64_to_le_bytes(chain.len() as u64),
        spec_is_at(bytes, at + 8, end, spec_concat(spec_block_parts(chain))),
{
    lemma_auto_spec_u64_to_from_le_bytes();
    let count = spec_u64_to_le_bytes(chain.len() as u64);
    let list = spec_concat(spec_block_parts(chain));
    let whole = spec_encode_chain(chain);
    assert(count.len() == 8);
    assert(whole.len() == 8 + list.len());
    assert(bytes.subrange(at, end).len() == end - at);
    assert(bytes.subrange(at, at + 8) =~= whole.subrange(0, 8));
    assert(whole.subrange(0, 8) =~= count);
    assert(bytes.subrange(at + 8, end) =~= bytes.subrange(at, end).subrange(8, end - at));
    assert(whole.subrange(8, whole.len() as int) =~= list);
}

/// If a chain is encoded from `at` on, and the encodings of `done` stand
/// directly after the number of blocks and are fewer, then `done` are the
/// first blocks of the chain and the encoding of its next block follows.
pub proof fn lemma_next_block_at(
    bytes: Seq<u8>,
    at: int,
    end: int,
    chain: Seq<BlockView>,
    done: Seq<BlockView>,
    pos: int,
)
    requires
        spec_encodable_chain(chain),
        spec_encodable_chain(done),
        spec_is_at(bytes, at, end, spec_encode_chain(chain)),
        spec_is_at(bytes, at + 8, pos, spec_concat(spec_block_parts(done))),
        done.len() <= chain.len(),
    ensures
        chain.take(done.len() as int) == done,
        done.len() < chain.len() ==> spec_is_at(
            bytes,
            pos,
            pos + spec_encode_block(chain[done.len() as int]).len(),
            spec_encode_block(chain[done.len() as int]),
        ),
        done.len() == chain.len() ==> pos == end,
{
    let k = done.len() as int;
    let pc = spec_block_parts(chain);
    let pd = spec_block_parts(done);
    let rest = bytes.subrange(at + 8, bytes.len() as int);
    lemma_chain_at(bytes, at, end, chain);
    let all = spec_concat(pc);
    let head = spec_concat(pd);
    assert(rest.subrange(0, end - at - 8) =~= bytes.subrange(at + 8, end));
    assert(rest.subrange(0, pos - at - 8) =~= bytes.subrange(at + 8, pos));
    assert(all.is_prefix_of(rest));
    assert(head.is_prefix_of(rest));
    lemma_block_parts_prefix_free(chain, done);
    lemma_block_parts_prefix_free(done, chain);
    lemma_concat_agree(pc, pd, rest, k);
    assert(pd.take(k) =~= pd);
    assert forall|j: int| 0 <= j < k implies chain[j] == done[j] by {
        assert(pc.take(k)[j] == pd[j]);
        let x = spec_encode_block(chain[j]);
        assert(x.subrange(0, x.len() as int) =~= x);
        lemma_block_unique(x, 0, x.len() as int, chain[j], x.len() as int, done[j]);
    }
    assert(chain.take(k) =~= done);
    lemma_concat_take(pc, k);
    if k < chain.len() {
        lemma_concat_take(pc, k + 1);
        let next = pc[k];
        let upto = spec_concat(pc.take(k + 1));
        assert(upto == head + next);
        assert(upto.is_prefix_of(all));
        assert(rest.subrange(0, upto.len() as int) =~= upto) by {
            assert(all.subrange(0, upto.len() as int) == upto);
            assert(rest.subrange(0, all.len() as int) == all);
            assert(rest.subrange(0, upto.len() as int) =~= all.subrange(0, upto.len() as int));
        }
        assert(bytes.subrange(pos, pos + next.len()) =~= next) by {
            assert(bytes.subrange(pos, pos + next.len()) =~= rest.subrange(
                0,
                upto.len() as int,
            ).subrange(head.len() as int, upto.len() as int));
            assert(upto.subrange(head.len() as int, upto.len() as int) =~= next);
        }
    } else {
        assert(pc.take(k) =~= pc);
    }
}

/// Two chains whose encodings start at the same place of a string are the
/// same chain, and their encodings end at the same place.
pub proof fn lemma_chain_unique(
    bytes: Seq<u8>,
    at: int,
    end: int,
    chain: Seq<BlockView>,
    other_end: int,
    other: Seq<BlockView>,
)
    requires
        spec_is_at(bytes, at, end, spec_encode_chain(chain)),
        spec_is_at(bytes, at, other_end, spec_encode_chain(other)),
        spec_encodable_chain(chain),
        spec_encodable_chain(other),
    ensures
        end == other_end,
        chain == other,
{
    lemma_chain_at(bytes, at, end, chain);
    lemma_chain_at(bytes, at, other_end, other);
    lemma_u64_le_injective(chain.len() as u64, other.len() as u64);
    lemma_next_block_at(bytes, at, end, chain, other, other_end);
    assert(chain.take(other.len() as int) =~= chain);
}

/// Two ledgers with the same encoding are the same.
pub proof fn lemma_encode_ledger_injective(a: LedgerView, b: LedgerView)
    requires
        spec_encodable(a),
        spec_encodable(b),
        spec_encode_ledger(a) == spec_encode_ledger(b),
    ensures
        a == b,
{
    let bytes = spec_encode_ledger(a);
    let ca = spec_encode_chain(a.chain);
    let cb = spec_encode_chain(b.chain);
    assert(bytes.subrange(0, ca.len() as int) =~= ca);
    assert(bytes.subrange(0, cb.len() as int) =~= cb);
    lemma_chain_unique(bytes, 0, ca.len() as int, a.chain, cb.len() as int, b.chain);
    assert(bytes.subrange(ca.len() as int, bytes.len() as int) =~= spec_encode_state(a.state));
    assert(bytes.subrange(cb.len() as int, bytes.len() as int) =~= spec_encode_state(b.state));
    lemma_state_unique(
        bytes,
        ca.len() as int,
        bytes.len() as int,
        a.state,
        bytes.len() as int,
        b.state,
    );
}

/// Appends the encoding of a chain to `out`.
pub fn encode_chain_into(blocks: &[Block], out: &mut Vec<u8>)
    ensures
        final(out)@ == old(out)@ + spec_encode_chain(spec_blocks(blocks@)),
{
    let count = u64_to_le_bytes(blocks.len() as u64);
    append_bytes(out, count.as_slice());
    let ghost chain = spec_blocks(blocks@);
    let mut i: usize = 0;
    assert(spec_block_parts(chain.take(0)) =~= Seq::<Seq<u8>>::empty());
    while i < blocks.len()
        invariant
            i <= blocks@.len(),
            chain == spec_blocks(blocks@),
            out@ == old(out)@ + spec_u64_to_le_bytes(blocks@.len() as u64) + spec_concat(
                spec_block_parts(chain.take(i as int)),
            ),
        decreases blocks.len() - i,
    {
        blocks[i].encode_into(out);
        proof {
            let done = spec_block_parts(chain.take(i as int));
            let part = spec_encode_block(chain[i as int]);
            assert(spec_block_parts(chain.take(i + 1)) =~= done.push(part));
            lemma_concat_push(done, part);
        }
        i += 1;
    }
    assert(chain.take(chain.len() as int) =~= chain);
    assert(out@ =~= old(out)@ + spec_encode_chain(chain));
}

/// The chain whose encoding starts at `at`, and where the encoding ends, if
/// there is such a chain.
pub fn decode_chain_at(bytes: &[u8], at: usize) -> (r: Option<(Vec<Block>, usize)>)
    requires
        at <= bytes@.len(),
    ensures
        match r {
            Some((blocks, end)) => spec_encodable_chain(spec_blocks(blocks@)) && spec_is_at(
                bytes@,
                at as int,
                end as int,
                spec_encode_chain(spec_blocks(blocks@)),
            ),
            None => forall|chain: Seq<BlockView>, end: int|
                spec_encodable_chain(chain) ==> !#[trigger] spec_is_at(
                    bytes@,
                    at as int,
                    end,
                    spec_encode_chain(chain),
                ),
        },
{
    let len = bytes.len();
    if len - at < 8 {
        assert forall|chain: Seq<BlockView>, end: int| spec_encodable_chain(chain) implies !#[trigger] spec_is_at(
            bytes@,
            at as int,
            end,
            spec_encode_chain(chain),
        ) by {
            if spec_is_at(bytes@, at as int, end, spec_encode_chain(chain)) {
                lemma_chain_at(bytes@, at as int, end, chain);
            }
        }
        return None;
    }
    let count = u64_le_at(bytes, at);
    let mut blocks: Vec<Block> = Vec::new();
    let mut pos: usize = at + 8;
    let mut i: u64 = 0;
    proof {
        assert(spec_block_parts(spec_blocks(blocks@)) =~= Seq::<Seq<u8>>::empty());
        assert(bytes@.subrange(at + 8, at + 8) =~= Seq::<u8>::empty());
    }
    while i < count
        invariant
            len == bytes@.len(),
            at + 8 <= pos <= len,
            i <= count,
            blocks@.len() == i,
            spec_u64_to_le_bytes(count) == bytes@.subrange(at as int, at + 8),
            spec_encodable_chain(spec_blocks(blocks@)),
            spec_is_at(
                bytes@,
                at + 8,
                pos as int,
                spec_concat(spec_block_parts(spec_blocks(blocks@))),
            ),
        decreases count - i,
    {
        let ghost done = spec_blocks(blocks@);
        match decode_block_at(bytes, pos) {
            None => {
                assert forall|chain: Seq<BlockView>, end: int| spec_encodable_chain(chain) implies !#[trigger] spec_is_at(
                    bytes@,
                    at as int,
                    end,
                    spec_encode_chain(chain),
                ) by {
                    if spec_is_at(bytes@, at as int, end, spec_encode_chain(chain)) {
                        lemma_chain_at(bytes@, at as int, end, chain);
                        lemma_u64_le_injective(chain.len() as u64, count);
                        lemma_next_block_at(bytes@, at as int, end, chain, done, pos as int);
                        let next = chain[i as int];
                        assert(spec_is_at(
                            bytes@,
                            pos as int,
                            pos + spec_encode_block(next).len(),
                            spec_encode_block(next),
                        ));
                    }
                }
                return None;
            },
            Some((block, end)) => {
                proof {
                    let part = spec_encode_block(block@);
                    let parts = spec_block_parts(done);
                    assert(spec_blocks(blocks@.push(block)) =~= done.push(block@));
                    assert(spec_block_parts(done.push(block@)) =~= parts.push(part));
                    lemma_concat_push(parts, part);
                    assert(bytes@.subrange(at + 8, end as int) =~= bytes@.subrange(
                        at + 8,
                        pos as int,
                    ) + bytes@.subrange(pos as int, end as int));
                }
                blocks.push(block);
                pos = end;
            },
        }
        i += 1;
    }
    proof {
        let chain = spec_blocks(blocks@);
        assert(bytes@.subrange(at as int, pos as int) =~= bytes@.subrange(at as int, at + 8)
            + bytes@.subrange(at + 8, pos as int));
    }
    Some((blocks, pos))
}

/// The encoding of a ledger with the given chain and state.
pub fn encode_ledger(blocks: &[Block], state: &Balances) -> (bytes: Vec<u8>)
    ensures
        bytes@ == spec_encode_ledger(LedgerView { chain: spec_blocks(blocks@), state: state@ }),
{
    let mut bytes: Vec<u8> = Vec::new();
    encode_chain_into(blocks, &mut bytes);
    state.encode_into(&mut bytes);
    assert(bytes@ =~= spec_encode_chain(spec_blocks(blocks@)) + spec_encode_state(state@));
    bytes
}

/// The chain and the state that `bytes` is the encoding of. Neither is
/// checked.
pub fn decode_ledger(bytes: &[u8]) -> (r: Result<(Vec<Block>, Balances), DecodeError>)
    ensures
        match r {
            Ok((blocks, state)) => {
                let ledger = LedgerView { chain: spec_blocks(blocks@), state: state@ };
                spec_encodable(ledger) && spec_encode_ledger(ledger) == bytes@
            },
            Err(_) => forall|ledger: LedgerView|
                spec_encodable(ledger) ==> #[trigger] spec_encode_ledger(ledger) != bytes@,
        },
{
    let len = bytes.len();
    match decode_chain_at(bytes, 0) {
        None => {
            assert forall|ledger: LedgerView| spec_encodable(ledger) implies #[trigger] spec_encode_ledger(
                ledger,
            ) != bytes@ by {
                let chain = spec_encode_chain(ledger.chain);
                if spec_encode_ledger(ledger) == bytes@ {
                    assert(bytes@.subrange(0, chain.len() as int) =~= chain);
                    assert(spec_is_at(bytes@, 0, chain.len() as int, chain));
                }
            }
            Err(DecodeError)
        },
        Some((blocks, mid)) => match decode_state_at(bytes, mid) {
            None => {
                assert forall|ledger: LedgerView| spec_encodable(ledger) implies #[trigger] spec_encode_ledger(
                    ledger,
                ) != bytes@ by {
                    let chain = spec_encode_chain(ledger.chain);
                    let state = spec_encode_state(ledger.state);
                    if spec_encode_ledger(ledger) == bytes@ {
                        assert(bytes@.subrange(0, chain.len() as int) =~= chain);
                        lemma_chain_unique(
                            bytes@,
                            0,
                            mid as int,
                            spec_blocks(blocks@),
                            chain.len() as int,
                            ledger.chain,
                        );
                        assert(bytes@.subrange(mid as int, len as int) =~= state);
                        assert(spec_is_at(bytes@, mid as int, len as int, state));
                    }
                }
                Err(DecodeError)
            },
            Some((state, end)) => {
                if end != len {
                    assert forall|ledger: LedgerView| spec_encodable(ledger) implies #[trigger] spec_encode_ledger(
                        ledger,
                    ) != bytes@ by {
                        let chain = spec_encode_chain(ledger.chain);
                        let other = spec_encode_state(ledger.state);
                        if spec_encode_ledger(ledger) == bytes@ {
                            assert(bytes@.subrange(0, chain.len() as int) =~= chain);
                            lemma_chain_unique(
                                bytes@,
                                0,
                                mid as int,
                                spec_blocks(blocks@),
                                chain.len() as int,
                                ledger.chain,
                            );
                            assert(bytes@.subrange(mid as int, len as int) =~= other);
                            lemma_state_unique(
                                bytes@,
                                mid as int,
                                end as int,
                                state@,
                                len as int,
                                ledger.state,
                            );
                        }
                    }
                    return Err(DecodeError);
                }
                proof {
                    assert(bytes@ =~= bytes@.subrange(0, mid as int) + bytes@.subrange(
                        mid as int,
                        len as int,
                    ));
                }
                Ok((blocks, state))
            },
        },
    }
}

} // verus!
