//! Transaction inputs, outputs, and the root transaction decoder that
//! composes every other decoder: version, a VarInt-counted input
//! list, a VarInt-counted output list, and a lock time.

use vstd::prelude::*;
use crate::source::{ByteSource, DecodeError, spec_decode_u32, spec_decode_u64};
use crate::varint::{spec_decode_varint, deserialize_varint};
use crate::script::{Script, Hash256, spec_decode_script, spec_decode_hash};

verus! {

/// The largest input or output count the decoder accepts.  A valid
/// block is capped at a fixed byte size and each list element takes
/// more than one byte, so no well-formed transaction can reach this;
/// the check bounds allocation before the count is trusted.
pub const MAX_LIST_COUNT: u64 = 1_000_000;

/// The mathematical image of an outpoint: the referenced transaction's
/// 32 identifier bytes and the zero-based output index within it.
pub struct OutpointModel {
    pub txid: Seq<u8>,
    pub index: u32,
}

/// The mathematical image of a transaction input.
pub struct TxInputModel {
    pub outpoint: OutpointModel,
    pub sig_script: Seq<u8>,
    pub sequence: u32,
}

/// The mathematical image of a transaction output.
pub struct TxOutputModel {
    pub satoshis: u64,
    pub verify_script: Seq<u8>,
}

/// The mathematical image of a whole transaction.
pub struct TransactionModel {
    pub version: u32,
    pub inputs: Seq<TxInputModel>,
    pub outputs: Seq<TxOutputModel>,
    pub lock_time: u32,
}

/// What the outpoint encoding means on a byte sequence: a 32-byte
/// hash, then a four-byte little-endian index.
pub open spec fn spec_decode_outpoint(s: Seq<u8>) -> Result<(OutpointModel, nat), DecodeError> {
    match spec_decode_hash(s) {
        Err(e) => Err(e),
        Ok((txid, n1)) => match spec_decode_u32(s.skip(n1 as int)) {
            Err(e) => Err(e),
            Ok((index, n2)) => Ok((OutpointModel { txid, index }, n1 + n2)),
        },
    }
}

/// What the input encoding means: an outpoint, a signature script,
/// then a four-byte little-endian sequence number.
pub open spec fn spec_decode_input(s: Seq<u8>) -> Result<(TxInputModel, nat), DecodeError> {
    match spec_decode_outpoint(s) {
        Err(e) => Err(e),
        Ok((outpoint, n1)) => match spec_decode_script(s.skip(n1 as int)) {
            Err(e) => Err(e),
            Ok((sig_script, n2)) => match spec_decode_u32(s.skip(n1 as int + n2 as int)) {
                Err(e) => Err(e),
                Ok((sequence, n3)) => Ok(
                    (TxInputModel { outpoint, sig_script, sequence }, n1 + n2 + n3),
                ),
            },
        },
    }
}

/// What the output encoding means: an eight-byte little-endian amount,
/// then a spending-condition script.
pub open spec fn spec_decode_output(s: Seq<u8>) -> Result<(TxOutputModel, nat), DecodeError> {
    match spec_decode_u64(s) {
        Err(e) => Err(e),
        Ok((satoshis, n1)) => match spec_decode_script(s.skip(n1 as int)) {
            Err(e) => Err(e),
            Ok((verify_script, n2)) => Ok((TxOutputModel { satoshis, verify_script }, n1 + n2)),
        },
    }
}

/// Decoding exactly `count` inputs in order, front to back; the first
/// failure is the list's failure.
pub open spec fn spec_decode_inputs(s: Seq<u8>, count: nat) -> Result<
    (Seq<TxInputModel>, nat),
    DecodeError,
>
    decreases count,
{
    if count == 0 {
        Ok((Seq::empty(), 0))
    } else {
        match spec_decode_input(s) {
            Err(e) => Err(e),
            Ok((first, n1)) => match spec_decode_inputs(s.skip(n1 as int), (count - 1) as nat) {
                Err(e) => Err(e),
                Ok((rest, n2)) => Ok((seq![first] + rest, n1 + n2)),
            },
        }
    }
}

/// Decoding exactly `count` outputs in order.
pub open spec fn spec_decode_outputs(s: Seq<u8>, count: nat) -> Result<
    (Seq<TxOutputModel>, nat),
    DecodeError,
>
    decreases count,
{
    if count == 0 {
        Ok((Seq::empty(), 0))
    } else {
        match spec_decode_output(s) {
            Err(e) => Err(e),
            Ok((first, n1)) => match spec_decode_outputs(s.skip(n1 as int), (count - 1) as nat) {
                Err(e) => Err(e),
                Ok((rest, n2)) => Ok((seq![first] + rest, n1 + n2)),
            },
        }
    }
}

/// Prepends an already-decoded prefix to the outcome of decoding the
/// rest of a list: an error passes through; a success extends the
/// prefix and adds its bytes consumed.
spec fn compose_list<T>(
    prefix: Seq<T>,
    consumed: nat,
    tail: Result<(Seq<T>, nat), DecodeError>,
) -> Result<(Seq<T>, nat), DecodeError> {
    match tail {
        Err(e) => Err(e),
        Ok((rest, n)) => Ok((prefix + rest, consumed + n)),
    }
}

/// What the transaction encoding means, end to end: version, input
/// count held to `MAX_LIST_COUNT`, that many inputs, output count held
/// to the same bound, that many outputs, lock time.
pub open spec fn spec_decode_transaction(s: Seq<u8>) -> Result<
    (TransactionModel, nat),
    DecodeError,
> {
    match spec_decode_u32(s) {
        Err(e) => Err(e),
        Ok((version, a)) => match spec_decode_varint(s.skip(a as int)) {
            Err(e) => Err(e),
            Ok((in_count, b)) => if in_count > MAX_LIST_COUNT {
                Err(DecodeError::InvalidData)
            } else {
                match spec_decode_inputs(s.skip(a as int + b as int), in_count as nat) {
                    Err(e) => Err(e),
                    Ok((inputs, c)) => match spec_decode_varint(
                        s.skip(a as int + b as int + c as int),
                    ) {
                        Err(e) => Err(e),
                        Ok((out_count, d)) => if out_count > MAX_LIST_COUNT {
                            Err(DecodeError::InvalidData)
                        } else {
                            match spec_decode_outputs(
                                s.skip(a as int + b as int + c as int + d as int),
                                out_count as nat,
                            ) {
                                Err(e) => Err(e),
                                Ok((outputs, f)) => match spec_decode_u32(
                                    s.skip(a as int + b as int + c as int + d as int + f as int),
                                ) {
                                    Err(e) => Err(e),
                                    Ok((lock_time, g)) => Ok(
                                        (
                                            TransactionModel { version, inputs, outputs, lock_time },
                                            a + b + c + d + f + g,
                                        ),
                                    ),
                                },
                            }
                        },
                    },
                }
            },
        },
    }
}

/// A successful input decode consumes no more bytes than the source holds.
proof fn lemma_input_consumed(s: Seq<u8>)
    ensures
        spec_decode_input(s) matches Ok(p) ==> p.1 <= s.len(),
{
}

/// A successful output decode consumes no more bytes than the source holds.
proof fn lemma_output_consumed(s: Seq<u8>)
    ensures
        spec_decode_output(s) matches Ok(p) ==> p.1 <= s.len(),
{
}

/// A successful input-list decode consumes no more bytes than the
/// source holds.
proof fn lemma_inputs_consumed(s: Seq<u8>, count: nat)
    ensures
        spec_decode_inputs(s, count) matches Ok(p) ==> p.1 <= s.len(),
    decreases count,
{
    if count > 0 {
        if spec_decode_input(s) is Ok {
            let p1 = spec_decode_input(s)->Ok_0;
            lemma_input_consumed(s);
            lemma_inputs_consumed(s.skip(p1.1 as int), (count - 1) as nat);
        }
    }
}

/// A successful output-list decode consumes no more bytes than the
/// source holds.
proof fn lemma_outputs_consumed(s: Seq<u8>, count: nat)
    ensures
        spec_decode_outputs(s, count) matches Ok(p) ==> p.1 <= s.len(),
    decreases count,
{
    if count > 0 {
        if spec_decode_output(s) is Ok {
            let p1 = spec_decode_output(s)->Ok_0;
            lemma_output_consumed(s);
            lemma_outputs_consumed(s.skip(p1.1 as int), (count - 1) as nat);
        }
    }
}

/// An outpoint decoder reads only its 36 bytes: cutting the source at
/// or after them leaves the result unchanged, and cutting earlier
/// yields the truncated-input error.
pub proof fn lemma_outpoint_prefix(s: Seq<u8>, m: int)
    requires
        0 <= m <= s.len(),
        spec_decode_outpoint(s) is Ok,
    ensures
        m >= spec_decode_outpoint(s)->Ok_0.1 ==> spec_decode_outpoint(s.take(m))
            == spec_decode_outpoint(s),
        m < spec_decode_outpoint(s)->Ok_0.1 ==> spec_decode_outpoint(s.take(m)) == Err::<
            (OutpointModel, nat),
            DecodeError,
        >(DecodeError::Truncated),
{
    let t = s.take(m);
    crate::script::lemma_hash_prefix(s, m);
    if m >= 32 {
        assert(t.skip(32) =~= s.skip(32).take(m - 32));
        if m >= 36 {
            assert(s.skip(32).take(m - 32).take(4) =~= s.skip(32).take(4));
        }
    }
}

/// An input decoder reads only the bytes it consumes: cutting the
/// source at or after that point leaves the result unchanged, and
/// cutting earlier yields the truncated-input error, however many of
/// the input's fields decoded before the cut.
pub proof fn lemma_input_prefix(s: Seq<u8>, m: int)
    requires
        0 <= m <= s.len(),
        spec_decode_input(s) is Ok,
    ensures
        m >= spec_decode_input(s)->Ok_0.1 ==> spec_decode_input(s.take(m)) == spec_decode_input(s),
        m < spec_decode_input(s)->Ok_0.1 ==> spec_decode_input(s.take(m)) == Err::<
            (TxInputModel, nat),
            DecodeError,
        >(DecodeError::Truncated),
{
    let t = s.take(m);
    let n1 = spec_decode_outpoint(s)->Ok_0.1;
    let n2 = spec_decode_script(s.skip(n1 as int))->Ok_0.1;
    lemma_outpoint_prefix(s, m);
    if m >= n1 as int {
        assert(t.skip(n1 as int) =~= s.skip(n1 as int).take(m - n1));
        crate::script::lemma_script_prefix(s.skip(n1 as int), m - n1);
        if m >= n1 as int + n2 as int {
            assert(t.skip(n1 as int + n2 as int) =~= s.skip(n1 as int + n2 as int).take(
                m - n1 - n2,
            ));
            if m >= n1 as int + n2 as int + 4 {
                assert(s.skip(n1 as int + n2 as int).take(m - n1 - n2).take(4) =~= s.skip(
                    n1 as int + n2 as int,
                ).take(4));
            }
        }
    }
}

/// An output decoder reads only the bytes it consumes: cutting the
/// source at or after that point leaves the result unchanged, and
/// cutting earlier yields the truncated-input error.
pub proof fn lemma_output_prefix(s: Seq<u8>, m: int)
    requires
        0 <= m <= s.len(),
        spec_decode_output(s) is Ok,
    ensures
        m >= spec_decode_output(s)->Ok_0.1 ==> spec_decode_output(s.take(m)) == spec_decode_output(
            s,
        ),
        m < spec_decode_output(s)->Ok_0.1 ==> spec_decode_output(s.take(m)) == Err::<
            (TxOutputModel, nat),
            DecodeError,
        >(DecodeError::Truncated),
{
    let t = s.take(m);
    if m >= 8 {
        assert(t.take(8) =~= s.take(8));
        assert(t.skip(8) =~= s.skip(8).take(m - 8));
        crate::script::lemma_script_prefix(s.skip(8), m - 8);
    }
}

/// An input-list decoder reads only the bytes it consumes: cutting the
/// source at or after that point leaves the result unchanged, and
/// cutting earlier yields the truncated-input error, however many
/// whole inputs decoded before the cut.
pub proof fn lemma_inputs_prefix(s: Seq<u8>, count: nat, m: int)
    requires
        0 <= m <= s.len(),
        spec_decode_inputs(s, count) is Ok,
    ensures
        m >= spec_decode_inputs(s, count)->Ok_0.1 ==> spec_decode_inputs(s.take(m), count)
            == spec_decode_inputs(s, count),
        m < spec_decode_inputs(s, count)->Ok_0.1 ==> spec_decode_inputs(s.take(m), count) == Err::<
            (Seq<TxInputModel>, nat),
            DecodeError,
        >(DecodeError::Truncated),
    decreases count,
{
    if count > 0 {
        let t = s.take(m);
        let n1 = spec_decode_input(s)->Ok_0.1;
        lemma_input_consumed(s);
        lemma_input_prefix(s, m);
        if m >= n1 as int {
            assert(t.skip(n1 as int) =~= s.skip(n1 as int).take(m - n1));
            lemma_inputs_prefix(s.skip(n1 as int), (count - 1) as nat, m - n1);
        }
    }
}

/// An output-list decoder reads only the bytes it consumes, in the
/// same way.
pub proof fn lemma_outputs_prefix(s: Seq<u8>, count: nat, m: int)
    requires
        0 <= m <= s.len(),
        spec_decode_outputs(s, count) is Ok,
    ensures
        m >= spec_decode_outputs(s, count)->Ok_0.1 ==> spec_decode_outputs(s.take(m), count)
            == spec_decode_outputs(s, count),
        m < spec_decode_outputs(s, count)->Ok_0.1 ==> spec_decode_outputs(s.take(m), count)
            == Err::<(Seq<TxOutputModel>, nat), DecodeError>(DecodeError::Truncated),
    decreases count,
{
    if count > 0 {
        let t = s.take(m);
        let n1 = spec_decode_output(s)->Ok_0.1;
        lemma_output_consumed(s);
        lemma_output_prefix(s, m);
        if m >= n1 as int {
            assert(t.skip(n1 as int) =~= s.skip(n1 as int).take(m - n1));
            lemma_outputs_prefix(s.skip(n1 as int), (count - 1) as nat, m - n1);
        }
    }
}

/// The transaction decoder reads only the bytes it consumes: cutting
/// the source at or after that point leaves the result unchanged, and
/// cutting it anywhere earlier fails the decode with the
/// truncated-input error, however many fields decoded before the cut.
pub proof fn lemma_transaction_prefix(s: Seq<u8>, m: int)
    requires
        0 <= m <= s.len(),
        spec_decode_transaction(s) is Ok,
    ensures
        m >= spec_decode_transaction(s)->Ok_0.1 ==> spec_decode_transaction(s.take(m))
            == spec_decode_transaction(s),
        m < spec_decode_transaction(s)->Ok_0.1 ==> spec_decode_transaction(s.take(m)) == Err::<
            (TransactionModel, nat),
            DecodeError,
        >(DecodeError::Truncated),
{
    let t = s.take(m);
    if m >= 4 {
        assert(t.take(4) =~= s.take(4));
        assert(t.skip(4) =~= s.skip(4).take(m - 4));
        crate::varint::lemma_varint_prefix(s.skip(4), m - 4);
        let in_count = spec_decode_varint(s.skip(4))->Ok_0.0;
        let b = spec_decode_varint(s.skip(4))->Ok_0.1;
        if m >= 4 + b as int {
            assert(t.skip(4 + b as int) =~= s.skip(4 + b as int).take(m - 4 - b));
            lemma_inputs_prefix(s.skip(4 + b as int), in_count as nat, m - 4 - b);
            let c = spec_decode_inputs(s.skip(4 + b as int), in_count as nat)->Ok_0.1;
            if m >= 4 + b as int + c as int {
                lemma_inputs_consumed(s.skip(4 + b as int), in_count as nat);
                assert(t.skip(4 + b as int + c as int) =~= s.skip(4 + b as int + c as int).take(
                    m - 4 - b - c,
                ));
                crate::varint::lemma_varint_prefix(s.skip(4 + b as int + c as int), m - 4 - b - c);
                let out_count = spec_decode_varint(s.skip(4 + b as int + c as int))->Ok_0.0;
                let d = spec_decode_varint(s.skip(4 + b as int + c as int))->Ok_0.1;
                if m >= 4 + b as int + c as int + d as int {
                    assert(t.skip(4 + b as int + c as int + d as int) =~= s.skip(
                        4 + b as int + c as int + d as int,
                    ).take(m - 4 - b - c - d));
                    lemma_outputs_prefix(
                        s.skip(4 + b as int + c as int + d as int),
                        out_count as nat,
                        m - 4 - b - c - d,
                    );
                    let f = spec_decode_outputs(
                        s.skip(4 + b as int + c as int + d as int),
                        out_count as nat,
                    )->Ok_0.1;
                    if m >= 4 + b as int + c as int + d as int + f as int {
                        lemma_outputs_consumed(
                            s.skip(4 + b as int + c as int + d as int),
                            out_count as nat,
                        );
                        assert(t.skip(4 + b as int + c as int + d as int + f as int) =~= s.skip(
                            4 + b as int + c as int + d as int + f as int,
                        ).take(m - 4 - b - c - d - f));
                        if m >= 4 + b as int + c as int + d as int + f as int + 4 {
                            assert(s.skip(4 + b as int + c as int + d as int + f as int).take(
                                m - 4 - b - c - d - f,
                            ).take(4) =~= s.skip(4 + b as int + c as int + d as int + f as int).take(
                                4,
                            ));
                        }
                    }
                }
            }
        }
    }
}

/// An input count over the bound fails the whole decode with the
/// data-validity error, before any input is considered.
pub proof fn lemma_input_count_bound(s: Seq<u8>, version: (u32, nat), in_count: (u64, nat))
    requires
        spec_decode_u32(s) == Ok::<(u32, nat), DecodeError>(version),
        spec_decode_varint(s.skip(version.1 as int)) == Ok::<(u64, nat), DecodeError>(in_count),
        in_count.0 > MAX_LIST_COUNT,
    ensures
        spec_decode_transaction(s) == Err::<(TransactionModel, nat), DecodeError>(
            DecodeError::InvalidData,
        ),
{
}

/// An output count over the bound fails the whole decode with the
/// data-validity error, before any output is considered.
pub proof fn lemma_output_count_bound(
    s: Seq<u8>,
    version: (u32, nat),
    in_count: (u64, nat),
    inputs: (Seq<TxInputModel>, nat),
    out_count: (u64, nat),
)
    requires
        spec_decode_u32(s) == Ok::<(u32, nat), DecodeError>(version),
        spec_decode_varint(s.skip(version.1 as int)) == Ok::<(u64, nat), DecodeError>(in_count),
        in_count.0 <= MAX_LIST_COUNT,
        spec_decode_inputs(s.skip(version.1 as int + in_count.1 as int), in_count.0 as nat) == Ok::<
            (Seq<TxInputModel>, nat),
            DecodeError,
        >(inputs),
        spec_decode_varint(s.skip(version.1 as int + in_count.1 as int + inputs.1 as int)) == Ok::<
            (u64, nat),
            DecodeError,
        >(out_count),
        out_count.0 > MAX_LIST_COUNT,
    ensures
        spec_decode_transaction(s) == Err::<(TransactionModel, nat), DecodeError>(
            DecodeError::InvalidData,
        ),
{
}

/// Decoding is a pure function of the bytes alone: two sources that
/// hold equal byte sequences decode to equal transaction trees.
pub proof fn lemma_decode_deterministic(a: ByteSource, b: ByteSource)
    requires
        a.remaining() == b.remaining(),
    ensures
        spec_decode_transaction(a.remaining()) == spec_decode_transaction(b.remaining()),
{
}

/// A reference to one output of an earlier transaction: that
/// transaction's id and the index of the output consumed.
pub struct Outpoint {
    /// Identifier of the transaction whose output is being spent.
    pub txid: Hash256,
    /// Which output of that transaction is being spent.
    pub index: u32,
}

impl View for Outpoint {
    type V = OutpointModel;

    open spec fn view(&self) -> OutpointModel {
        OutpointModel { txid: self.txid@, index: self.index }
    }
}

/// A single transaction input.
pub struct TxInput {
    pub outpoint: Outpoint,
    pub sig_script: Script,
    pub sequence: u32,
}

impl View for TxInput {
    type V = TxInputModel;

    open spec fn view(&self) -> TxInputModel {
        TxInputModel {
            outpoint: self.outpoint@,
            sig_script: self.sig_script@,
            sequence: self.sequence,
        }
    }
}

/// A single transaction output.
pub struct TxOutput {
    pub satoshis: u64,
    pub verify_script: Script,
}

impl View for TxOutput {
    type V = TxOutputModel;

    open spec fn view(&self) -> TxOutputModel {
        TxOutputModel { satoshis: self.satoshis, verify_script: self.verify_script@ }
    }
}

/// The models of a list of decoded inputs, in order.
pub open spec fn input_views(v: Seq<TxInput>) -> Seq<TxInputModel> {
    v.map_values(|x: TxInput| x@)
}

/// The models of a list of decoded outputs, in order.
pub open spec fn output_views(v: Seq<TxOutput>) -> Seq<TxOutputModel> {
    v.map_values(|x: TxOutput| x@)
}

/// A decoded transaction.  Input and output order is significant and
/// preserved exactly as encoded.
pub struct Transaction {
    pub version: u32,
    pub inputs: Vec<TxInput>,
    pub outputs: Vec<TxOutput>,
    pub lock_time: u32,
}

impl View for Transaction {
    type V = TransactionModel;

    open spec fn view(&self) -> TransactionModel {
        TransactionModel {
            version: self.version,
            inputs: input_views(self.inputs@),
            outputs: output_views(self.outputs@),
            lock_time: self.lock_time,
        }
    }
}

impl Outpoint {
    /// Decodes an outpoint: hash, then index.  Whichever sub-decode
    /// fails first fails the outpoint; no partial value is returned.
    pub fn deserialize(reader: &mut ByteSource) -> (r: Result<Outpoint, DecodeError>)
        requires
            old(reader).wf(),
        ensures
            final(reader).wf(),
            match r {
                Ok(o) => spec_decode_outpoint(old(reader).remaining()) matches Ok(p) && o@ == p.0
                    && final(reader).remaining() == old(reader).remaining().skip(p.1 as int),
                Err(e) => spec_decode_outpoint(old(reader).remaining()) == Err::<
                    (OutpointModel, nat),
                    DecodeError,
                >(e),
            },
    {
        let ghost s = old(reader).remaining();
        let txid = match Hash256::deserialize(reader) {
            Ok(h) => h,
            Err(e) => {
                return Err(e);
            },
        };
        let index = match reader.read_u32_le() {
            Ok(v) => v,
            Err(e) => {
                return Err(e);
            },
        };
        proof {
            assert(s.skip(32).skip(4) =~= s.skip(36));
        }
        Ok(Outpoint { txid, index })
    }
}

impl TxInput {
    /// Decodes an input: outpoint, signature script, sequence number.
    pub fn deserialize(reader: &mut ByteSource) -> (r: Result<TxInput, DecodeError>)
        requires
            old(reader).wf(),
        ensures
            final(reader).wf(),
            match r {
                Ok(t) => spec_decode_input(old(reader).remaining()) matches Ok(p) && t@ == p.0
                    && final(reader).remaining() == old(reader).remaining().skip(p.1 as int),
                Err(e) => spec_decode_input(old(reader).remaining()) == Err::<
                    (TxInputModel, nat),
                    DecodeError,
                >(e),
            },
    {
        let ghost s = old(reader).remaining();
        let outpoint = match Outpoint::deserialize(reader) {
            Ok(o) => o,
            Err(e) => {
                return Err(e);
            },
        };
        let ghost n1 = spec_decode_outpoint(s)->Ok_0.1;
        let sig_script = match Script::deserialize(reader) {
            Ok(sc) => sc,
            Err(e) => {
                return Err(e);
            },
        };
        let ghost n2 = spec_decode_script(s.skip(n1 as int))->Ok_0.1;
        proof {
            assert(s.skip(n1 as int).skip(n2 as int) =~= s.skip(n1 as int + n2 as int));
        }
        let sequence = match reader.read_u32_le() {
            Ok(v) => v,
            Err(e) => {
                return Err(e);
            },
        };
        proof {
            assert(s.skip(n1 as int + n2 as int).skip(4) =~= s.skip(n1 as int + n2 as int + 4));
        }
        Ok(TxInput { outpoint, sig_script, sequence })
    }
}

impl TxOutput {
    /// Decodes an output: amount, then spending-condition script.
    pub fn deserialize(reader: &mut ByteSource) -> (r: Result<TxOutput, DecodeError>)
        requires
            old(reader).wf(),
        ensures
            final(reader).wf(),
            match r {
                Ok(t) => spec_decode_output(old(reader).remaining()) matches Ok(p) && t@ == p.0
                    && final(reader).remaining() == old(reader).remaining().skip(p.1 as int),
                Err(e) => spec_decode_output(old(reader).remaining()) == Err::<
                    (TxOutputModel, nat),
                    DecodeError,
                >(e),
            },
    {
        let ghost s = old(reader).remaining();
        let satoshis = match reader.read_u64_le() {
            Ok(v) => v,
            Err(e) => {
                return Err(e);
            },
        };
        let verify_script = match Script::deserialize(reader) {
            Ok(sc) => sc,
            Err(e) => {
                return Err(e);
            },
        };
        proof {
            let n2 = spec_decode_script(s.skip(8))->Ok_0.1;
            assert(s.skip(8).skip(n2 as int) =~= s.skip(8 + n2 as int));
        }
        Ok(TxOutput { satoshis, verify_script })
    }
}

/// Decodes exactly `count` inputs, in order, into a list pre-sized to
/// the already-validated count.
#[verifier::loop_isolation(false)]
fn decode_inputs(reader: &mut ByteSource, count: u64) -> (r: Result<Vec<TxInput>, DecodeError>)
    requires
        old(reader).wf(),
    ensures
        final(reader).wf(),
        match r {
            Ok(v) => spec_decode_inputs(old(reader).remaining(), count as nat) matches Ok(p)
                && input_views(v@) == p.0 && final(reader).remaining() == old(
                reader,
            ).remaining().skip(p.1 as int),
            Err(e) => spec_decode_inputs(old(reader).remaining(), count as nat) == Err::<
                (Seq<TxInputModel>, nat),
                DecodeError,
            >(e),
        },
{
    let ghost s_in = old(reader).remaining();
    let mut inputs: Vec<TxInput> = Vec::with_capacity(count as usize);
    let ghost mut consumed_in: nat = 0nat;
    let mut i: u64 = 0;
    while i < count
        invariant
            reader.wf(),
            i <= count,
            inputs@.len() == i,
            consumed_in <= s_in.len(),
            reader.remaining() == s_in.skip(consumed_in as int),
            spec_decode_inputs(s_in, count as nat) == compose_list(
                input_views(inputs@),
                consumed_in,
                spec_decode_inputs(reader.remaining(), (count - i) as nat),
            ),
        decreases count - i,
    {
        let ghost rem_i = reader.remaining();
        let ghost prefix = input_views(inputs@);
        let ghost k = (count - i) as nat;
        let inp = match TxInput::deserialize(reader) {
            Ok(x) => x,
            Err(e) => {
                return Err(e);
            },
        };
        inputs.push(inp);
        i = i + 1;
        proof {
            let n1 = spec_decode_input(rem_i)->Ok_0.1;
            consumed_in = consumed_in + n1;
            assert(input_views(inputs@) =~= prefix.push(inp@));
            assert(s_in.skip((consumed_in - n1) as int).skip(n1 as int) =~= s_in.skip(
                consumed_in as int,
            ));
            match spec_decode_inputs(reader.remaining(), (k - 1) as nat) {
                Ok((rest, n2)) => {
                    assert(prefix + (seq![inp@] + rest) =~= prefix.push(inp@) + rest);
                },
                Err(_) => {},
            }
        }
    }
    proof {
        assert(input_views(inputs@) + Seq::<TxInputModel>::empty() =~= input_views(inputs@));
    }
    Ok(inputs)
}

/// Decodes exactly `count` outputs, in order, into a list pre-sized to
/// the already-validated count.
#[verifier::loop_isolation(false)]
fn decode_outputs(reader: &mut ByteSource, count: u64) -> (r: Result<Vec<TxOutput>, DecodeError>)
    requires
        old(reader).wf(),
    ensures
        final(reader).wf(),
        match r {
            Ok(v) => spec_decode_outputs(old(reader).remaining(), count as nat) matches Ok(p)
                && output_views(v@) == p.0 && final(reader).remaining() == old(
                reader,
            ).remaining().skip(p.1 as int),
            Err(e) => spec_decode_outputs(old(reader).remaining(), count as nat) == Err::<
                (Seq<TxOutputModel>, nat),
                DecodeError,
            >(e),
        },
{
    let ghost s_out = old(reader).remaining();
    let mut outputs: Vec<TxOutput> = Vec::with_capacity(count as usize);
    let ghost mut consumed_out: nat = 0nat;
    let mut j: u64 = 0;
    while j < count
        invariant
            reader.wf(),
            j <= count,
            outputs@.len() == j,
            consumed_out <= s_out.len(),
            reader.remaining() == s_out.skip(consumed_out as int),
            spec_decode_outputs(s_out, count as nat) == compose_list(
                output_views(outputs@),
                consumed_out,
                spec_decode_outputs(reader.remaining(), (count - j) as nat),
            ),
        decreases count - j,
    {
        let ghost rem_j = reader.remaining();
        let ghost prefix = output_views(outputs@);
        let ghost k = (count - j) as nat;
        let outp = match TxOutput::deserialize(reader) {
            Ok(x) => x,
            Err(e) => {
                return Err(e);
            },
        };
        outputs.push(outp);
        j = j + 1;
        proof {
            let n1 = spec_decode_output(rem_j)->Ok_0.1;
            consumed_out = consumed_out + n1;
            assert(output_views(outputs@) =~= prefix.push(outp@));
            assert(s_out.skip((consumed_out - n1) as int).skip(n1 as int) =~= s_out.skip(
                consumed_out as int,
            ));
            match spec_decode_outputs(reader.remaining(), (k - 1) as nat) {
                Ok((rest, n2)) => {
                    assert(prefix + (seq![outp@] + rest) =~= prefix.push(outp@) + rest);
                },
                Err(_) => {},
            }
        }
    }
    proof {
        assert(output_views(outputs@) + Seq::<TxOutputModel>::empty() =~= output_views(outputs@));
    }
    Ok(outputs)
}

impl Transaction {
    /// Decodes a whole transaction.  The decode is atomic: the first
    /// failing step fails the whole decode and no partial transaction
    /// is produced.
    pub fn deserialize(reader: &mut ByteSource) -> (r: Result<Transaction, DecodeError>)
        requires
            old(reader).wf(),
        ensures
            final(reader).wf(),
            match r {
                Ok(t) => spec_decode_transaction(old(reader).remaining()) matches Ok(p) && t@ == p.0
                    && final(reader).remaining() == old(reader).remaining().skip(p.1 as int),
                Err(e) => spec_decode_transaction(old(reader).remaining()) == Err::<
                    (TransactionModel, nat),
                    DecodeError,
                >(e),
            },
    {
        let ghost s = old(reader).remaining();
        let version = match reader.read_u32_le() {
            Ok(v) => v,
            Err(e) => {
                return Err(e);
            },
        };
        let input_count = match deserialize_varint(reader) {
            Ok(v) => v,
            Err(e) => {
                return Err(e);
            },
        };
        let ghost b = spec_decode_varint(s.skip(4))->Ok_0.1;
        if input_count > MAX_LIST_COUNT {
            return Err(DecodeError::InvalidData);
        }
        let ghost s_in = s.skip(4 + b as int);
        proof {
            assert(s.skip(4).skip(b as int) =~= s_in);
        }

        let inputs = match decode_inputs(reader, input_count) {
            Ok(v) => v,
            Err(e) => {
                return Err(e);
            },
        };
        let ghost c = spec_decode_inputs(s_in, input_count as nat)->Ok_0.1;
        proof {
            lemma_inputs_consumed(s_in, input_count as nat);
            assert(s_in.skip(c as int) =~= s.skip(4 + b as int + c as int));
        }

        let output_count = match deserialize_varint(reader) {
            Ok(v) => v,
            Err(e) => {
                return Err(e);
            },
        };
        let ghost d = spec_decode_varint(s.skip(4 + b as int + c as int))->Ok_0.1;
        if output_count > MAX_LIST_COUNT {
            return Err(DecodeError::InvalidData);
        }
        let ghost s_out = s.skip(4 + b as int + c as int + d as int);
        proof {
            assert(s.skip(4 + b as int + c as int).skip(d as int) =~= s_out);
        }

        let outputs = match decode_outputs(reader, output_count) {
            Ok(v) => v,
            Err(e) => {
                return Err(e);
            },
        };
        let ghost f = spec_decode_outputs(s_out, output_count as nat)->Ok_0.1;
        proof {
            lemma_outputs_consumed(s_out, output_count as nat);
            assert(s_out.skip(f as int) =~= s.skip(4 + b as int + c as int + d as int + f as int));
        }

        let lock_time = match reader.read_u32_le() {
            Ok(v) => v,
            Err(e) => {
                return Err(e);
            },
        };
        proof {
            assert(s.skip(4 + b as int + c as int + d as int + f as int).skip(4) =~= s.skip(
                4 + b as int + c as int + d as int + f as int + 4,
            ));
        }
        Ok(Transaction { version, inputs, outputs, lock_time })
    }
}

} // verus!
