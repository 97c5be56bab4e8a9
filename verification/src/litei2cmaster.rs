//! Driver logic for the litei2c I2C master core.
use vstd::prelude::*;

verus! {

/// Bus speed of the I2C PHY.
#[derive(Debug, Copy, Clone, PartialEq, Eq, Structural)]
pub enum LiteI2CSpeedMode {
    Standard,
    Fast,
    FastPlus,
}

/// Errors reported by an I2C transaction.
#[derive(Debug, Copy, Clone, PartialEq, Eq, Structural)]
pub enum LiteI2CError {
    NACK,
    Other,
}

impl LiteI2CSpeedMode {
    /// Value written to the PHY's `phy_speed_mode` register for this mode.
    pub open spec fn register_value(self) -> u32 {
        match self {
            LiteI2CSpeedMode::Standard => 0,
            LiteI2CSpeedMode::Fast => 1,
            LiteI2CSpeedMode::FastPlus => 2,
        }
    }

    /// Value written to the PHY's `phy_speed_mode` register when a master is set up.
    pub fn phy_speed_setting(&self) -> (setting: u32)
        ensures
            setting == self.register_value(),
    {
        match self {
            LiteI2CSpeedMode::Standard => 0,
            LiteI2CSpeedMode::Fast => 1,
            LiteI2CSpeedMode::FastPlus => 2,
        }
    }

    /// Text naming the mode.
    pub open spec fn text(self) -> Seq<char> {
        match self {
            LiteI2CSpeedMode::Standard => "LiteI2CSpeedMode::Standard"@,
            LiteI2CSpeedMode::Fast => "LiteI2CSpeedMode::Fast"@,
            LiteI2CSpeedMode::FastPlus => "LiteI2CSpeedMode::FastPlus"@,
        }
    }

    /// The mode's name, as printed.
    pub fn to_string(&self) -> (s: String)
        ensures
            s@ == self.text(),
    {
        match self {
            LiteI2CSpeedMode::Standard => "LiteI2CSpeedMode::Standard".to_owned(),
            LiteI2CSpeedMode::Fast => "LiteI2CSpeedMode::Fast".to_owned(),
            LiteI2CSpeedMode::FastPlus => "LiteI2CSpeedMode::FastPlus".to_owned(),
        }
    }
}

/// Different speed modes are told apart by the PHY.
pub proof fn lemma_speed_settings_distinct(a: LiteI2CSpeedMode, b: LiteI2CSpeedMode)
    ensures
        a.register_value() == b.register_value() <==> a == b,
        a.register_value() <= 2,
{
}

/// Generic kind of an I2C error, as the embedded-hal I2C interface classifies errors.
#[derive(Debug, Copy, Clone, PartialEq, Eq, Structural)]
pub enum I2cErrorKind {
    /// The target did not acknowledge, and it is not known whether the address or the data.
    NoAcknowledgeUnknown,
    /// Any other error.
    Other,
}

impl LiteI2CError {
    /// Kind of the error: a missing acknowledge, of unknown source, for `NACK`; any other
    /// error otherwise.
    pub open spec fn kind_of(self) -> I2cErrorKind {
        match self {
            LiteI2CError::NACK => I2cErrorKind::NoAcknowledgeUnknown,
            _ => I2cErrorKind::Other,
        }
    }

    /// Kind of the error, as the embedded-hal I2C interface classifies errors.
    pub fn kind(&self) -> (k: I2cErrorKind)
        ensures
            k == self.kind_of(),
    {
        match *self {
            LiteI2CError::NACK => I2cErrorKind::NoAcknowledgeUnknown,
            _ => I2cErrorKind::Other,
        }
    }

    /// Text describing the error.
    pub open spec fn text(self) -> Seq<char> {
        match self {
            LiteI2CError::NACK => "LiteI2CError: NACK receied!"@,
            LiteI2CError::Other => "LiteI2CError: Unknown error!"@,
        }
    }

    /// The error's description, as printed.
    pub fn to_string(&self) -> (s: String)
        ensures
            s@ == self.text(),
    {
        match self {
            LiteI2CError::NACK => "LiteI2CError: NACK receied!".to_owned(),
            LiteI2CError::Other => "LiteI2CError: Unknown error!".to_owned(),
        }
    }
}

// ---------------------------------------------------------------------------------------------
// Byte packing: the core moves up to four bytes per bus word, most significant byte first.
// ---------------------------------------------------------------------------------------------

/// Value of a byte string read most significant byte first.
pub open spec fn be_value(bytes: Seq<u8>) -> nat
    decreases bytes.len(),
{
    if bytes.len() == 0 {
        0
    } else {
        be_value(bytes.drop_last()) * 256 + bytes.last() as nat
    }
}

/// `256` raised to `k`.
pub open spec fn byte_weight(k: nat) -> nat
    decreases k,
{
    if k == 0 {
        1
    } else {
        256 * byte_weight((k - 1) as nat)
    }
}

/// The `count` low-order bytes of `word`, most significant byte first.
pub open spec fn be_bytes(word: u32, count: nat) -> Seq<u8> {
    Seq::new(count, |i: int| ((word as nat / byte_weight((count - 1 - i) as nat)) % 256) as u8)
}

/// `s` with the elements from `at` on replaced by `piece`.
pub open spec fn splice(s: Seq<u8>, at: int, piece: Seq<u8>) -> Seq<u8> {
    s.take(at) + piece + s.skip(at + piece.len())
}

proof fn lemma_byte_weights()
    ensures
        byte_weight(0) == 1,
        byte_weight(1) == 256,
        byte_weight(2) == 65536,
        byte_weight(3) == 16777216,
{
    reveal_with_fuel(byte_weight, 4);
}

proof fn lemma_be_value_small(bytes: Seq<u8>)
    requires
        bytes.len() <= 4,
    ensures
        bytes.len() == 0 ==> be_value(bytes) == 0,
        bytes.len() == 1 ==> be_value(bytes) == bytes[0],
        bytes.len() == 2 ==> be_value(bytes) == bytes[0] * 256 + bytes[1],
        bytes.len() == 3 ==> be_value(bytes) == bytes[0] * 65536 + bytes[1] * 256 + bytes[2],
        bytes.len() == 4 ==> be_value(bytes) == bytes[0] * 16777216 + bytes[1] * 65536 + bytes[2]
            * 256 + bytes[3],
        be_value(bytes) < byte_weight(bytes.len()),
{
    lemma_byte_weights();
    reveal_with_fuel(be_value, 5);
    if bytes.len() >= 1 {
        assert(bytes.drop_last().len() + 1 == bytes.len());
    }
    if bytes.len() == 2 {
        assert(bytes.drop_last()[0] == bytes[0]);
    }
    if bytes.len() == 3 {
        let d = bytes.drop_last();
        assert(d.drop_last()[0] == bytes[0]);
        assert(d[1] == bytes[1]);
    }
    if bytes.len() == 4 {
        let d = bytes.drop_last();
        let e = d.drop_last();
        assert(e.drop_last()[0] == bytes[0]);
        assert(e[1] == bytes[1]);
        assert(d[2] == bytes[2]);
    }
}

/// Packing bytes into a word and reading them back out gives the same bytes.
pub proof fn lemma_pack_unpack_roundtrip(bytes: Seq<u8>)
    requires
        bytes.len() <= 4,
    ensures
        be_value(bytes) <= u32::MAX,
        be_bytes(be_value(bytes) as u32, bytes.len()) == bytes,
{
    lemma_be_value_small(bytes);
    lemma_byte_weights();
    let n = bytes.len();
    let w = be_value(bytes) as u32;
    let out = be_bytes(w, n);
    if n == 1 {
        let a = bytes[0] as u32;
        assert(w == a);
        assert(a / 1 == a && a % 256 == a) by (nonlinear_arith)
            requires
                a < 256,
        ;
        assert(out[0] == bytes[0]);
    } else if n == 2 {
        let a = bytes[0] as u32;
        let b = bytes[1] as u32;
        assert(w == a * 256 + b);
        assert((a * 256 + b) / 256 == a && (a * 256 + b) % 256 == b && (a * 256 + b) / 1 == a
            * 256 + b) by (nonlinear_arith)
            requires
                a < 256,
                b < 256,
        ;
        assert(out[0] == bytes[0]);
        assert(out[1] == bytes[1]);
    } else if n == 3 {
        let a = bytes[0] as u32;
        let b = bytes[1] as u32;
        let c = bytes[2] as u32;
        assert(w == a * 65536 + b * 256 + c);
        assert((a * 65536 + b * 256 + c) / 65536 == a && ((a * 65536 + b * 256 + c) / 256) % 256
            == b && (a * 65536 + b * 256 + c) % 256 == c && (a * 65536 + b * 256 + c) / 1 == a
            * 65536 + b * 256 + c) by (nonlinear_arith)
            requires
                a < 256,
                b < 256,
                c < 256,
        ;
        assert(out[0] == bytes[0]);
        assert(out[1] == bytes[1]);
        assert(out[2] == bytes[2]);
    } else if n == 4 {
        let a = bytes[0] as u32;
        let b = bytes[1] as u32;
        let c = bytes[2] as u32;
        let d = bytes[3] as u32;
        assert(w == a * 16777216 + b * 65536 + c * 256 + d);
        assert({
            let v = a * 16777216 + b * 65536 + c * 256 + d;
            &&& (v / 16777216) % 256 == a
            &&& (v / 65536) % 256 == b
            &&& (v / 256) % 256 == c
            &&& v % 256 == d
            &&& v / 1 == v
        }) by (nonlinear_arith)
            requires
                a < 256,
                b < 256,
                c < 256,
                d < 256,
        ;
        assert(out[0] == bytes[0]);
        assert(out[1] == bytes[1]);
        assert(out[2] == bytes[2]);
        assert(out[3] == bytes[3]);
    }
    assert(out =~= bytes);
}

/// Packs `count` bytes of `buf`, starting at `start`, into a bus word, most significant byte
/// first; `count` is at most four.
pub fn pack_word(buf: &[u8], start: usize, count: usize) -> (word: u32)
    requires
        count <= 4,
        start + count <= buf@.len(),
    ensures
        word == be_value(buf@.subrange(start as int, start + count)),
{
    let ghost chunk = buf@.subrange(start as int, start + count);
    proof {
        lemma_be_value_small(chunk);
    }
    let mut word: u32 = 0;
    if count == 4 {
        let a: u8 = buf[start];
        let b: u8 = buf[start + 1];
        let c: u8 = buf[start + 2];
        let d: u8 = buf[start + 3];
        word = word | (a as u32) << 24u32;
        word = word | (b as u32) << 16u32;
        word = word | (c as u32) << 8u32;
        word = word | d as u32;
        assert(word == (a as u32) * 16777216 + (b as u32) * 65536 + (c as u32) * 256 + (d as u32))
            by (bit_vector)
            requires
                word == (((0u32 | (a as u32) << 24u32) | (b as u32) << 16u32) | (c as u32) << 8u32)
                    | d as u32,
        ;
    } else if count == 3 {
        let a: u8 = buf[start];
        let b: u8 = buf[start + 1];
        let c: u8 = buf[start + 2];
        word = word | (a as u32) << 16u32;
        word = word | (b as u32) << 8u32;
        word = word | c as u32;
        assert(word == (a as u32) * 65536 + (b as u32) * 256 + (c as u32)) by (bit_vector)
            requires
                word == ((0u32 | (a as u32) << 16u32) | (b as u32) << 8u32) | c as u32,
        ;
    } else if count == 2 {
        let a: u8 = buf[start];
        let b: u8 = buf[start + 1];
        word = word | (a as u32) << 8u32;
        word = word | b as u32;
        assert(word == (a as u32) * 256 + (b as u32)) by (bit_vector)
            requires
                word == (0u32 | (a as u32) << 8u32) | b as u32,
        ;
    } else if count == 1 {
        let a: u8 = buf[start];
        word = word | a as u32;
        assert(word == a as u32) by (bit_vector)
            requires
                word == 0u32 | a as u32,
        ;
    }
    word
}

proof fn lemma_be_bytes_shifts(w: u32)
    ensures
        be_bytes(w, 4)[0] == (w >> 24u32) as u8,
        be_bytes(w, 4)[1] == (w >> 16u32) as u8,
        be_bytes(w, 4)[2] == (w >> 8u32) as u8,
        be_bytes(w, 4)[3] == w as u8,
        be_bytes(w, 3)[0] == (w >> 16u32) as u8,
        be_bytes(w, 3)[1] == (w >> 8u32) as u8,
        be_bytes(w, 3)[2] == w as u8,
        be_bytes(w, 2)[0] == (w >> 8u32) as u8,
        be_bytes(w, 2)[1] == w as u8,
        be_bytes(w, 1)[0] == w as u8,
{
    lemma_byte_weights();
    assert((w >> 24u32) as u8 == ((w / 16777216) % 256) as u8) by (bit_vector);
    assert((w >> 16u32) as u8 == ((w / 65536) % 256) as u8) by (bit_vector);
    assert((w >> 8u32) as u8 == ((w / 256) % 256) as u8) by (bit_vector);
    assert(w as u8 == (w % 256) as u8) by (bit_vector);
    assert(w / 1 == w) by (nonlinear_arith);
}

/// Stores the `count` low-order bytes of `word`, most significant byte first, into `buf`
/// from `start` on; `count` is at most four.
pub fn unpack_word(buf: &mut Vec<u8>, start: usize, count: usize, word: u32)
    requires
        count <= 4,
        start + count <= old(buf)@.len(),
    ensures
        final(buf)@ == splice(old(buf)@, start as int, be_bytes(word, count as nat)),
{
    proof {
        lemma_be_bytes_shifts(word);
    }
    let ghost piece = be_bytes(word, count as nat);
    let ghost orig = buf@;
    let len: usize = buf.len();
    assert(start + count <= len);
    let w: u32 = word;
    if count == 4 {
        buf[start] = (w >> 24u32) as u8;
        buf[start + 1] = (w >> 16u32) as u8;
        buf[start + 2] = (w >> 8u32) as u8;
        buf[start + 3] = w as u8;
    } else if count == 3 {
        buf[start] = (w >> 16u32) as u8;
        buf[start + 1] = (w >> 8u32) as u8;
        buf[start + 2] = w as u8;
    } else if count == 2 {
        buf[start] = (w >> 8u32) as u8;
        buf[start + 1] = w as u8;
    } else if count == 1 {
        buf[start] = w as u8;
    }
    assert forall|i: int| 0 <= i < buf@.len() implies buf@[i] == splice(orig, start as int, piece)[
        i
    ] by {
        if start <= i < start + count {
            assert(buf@[i] == piece[i - start]);
        } else {
            assert(buf@[i] == orig[i]);
        }
    }
    assert(buf@ =~= splice(orig, start as int, piece));
}

// ---------------------------------------------------------------------------------------------
// Transfer plan: which bus words a transaction exchanges, and in which order.
// ---------------------------------------------------------------------------------------------

/// One operation of an I2C transaction. A read holds the buffer that receives the data; its
/// length is the number of bytes asked for.
pub enum I2cOperation {
    Read(Vec<u8>),
    Write(Vec<u8>),
}

/// One exchange of a bus word with the core: the transfer settings written before it, the word
/// sent, and where the bytes of the word that comes back are stored.
#[derive(Debug, Copy, Clone, PartialEq, Eq, Structural)]
pub struct I2cTransfer {
    /// Index of the operation the transfer belongs to.
    pub op: usize,
    /// `len_tx` field of the transfer settings register.
    pub len_tx: u8,
    /// `len_rx` field of the transfer settings register.
    pub len_rx: u8,
    /// Word written to the data register.
    pub word: u32,
    /// Position in the read buffer of the first received byte that is kept.
    pub rx_offset: usize,
    /// Number of received bytes kept (zero for a write).
    pub rx_count: usize,
}

/// The buffer of an operation.
pub open spec fn op_buffer(op: I2cOperation) -> Seq<u8> {
    match op {
        I2cOperation::Read(b) => b@,
        I2cOperation::Write(b) => b@,
    }
}

/// Number of bus words needed for `n` bytes, four per word.
pub open spec fn word_count(n: nat) -> nat {
    (n + 3) / 4
}

/// Transfer length announced for the `k`-th word of an `n`-byte buffer: `5` while more than one
/// further word follows, the number of remaining bytes otherwise.
pub open spec fn chunk_len(n: nat, k: nat) -> nat {
    if n > 4 * k + 4 {
        5
    } else {
        (n - 4 * k) as nat
    }
}

/// Number of bytes carried by the `k`-th word of an `n`-byte buffer.
pub open spec fn chunk_payload(n: nat, k: nat) -> nat {
    if n > 4 * k + 4 {
        4
    } else {
        (n - 4 * k) as nat
    }
}

/// Transfers of a write of `bytes`, operation number `index`, when the most recent read of the
/// transaction asked for `read_len` bytes. Without an earlier read only the first word is sent.
pub open spec fn write_transfers(index: nat, bytes: Seq<u8>, read_len: nat) -> Seq<I2cTransfer> {
    let w = bytes.len();
    let count = if read_len == 0 {
        1
    } else {
        word_count(w)
    };
    Seq::new(
        count,
        |k: int|
            I2cTransfer {
                op: index as usize,
                len_tx: chunk_len(w, k as nat) as u8,
                len_rx: (if w > 4 * k + 4 {
                    0
                } else if read_len > 4 {
                    5
                } else {
                    read_len
                }) as u8,
                word: be_value(bytes.subrange(4 * k, 4 * k + chunk_payload(w, k as nat))) as u32,
                rx_offset: 0,
                rx_count: 0,
            },
    )
}

/// Transfers of a read of `n` bytes, operation number `index`, when the most recent write of the
/// transaction held `write_len` bytes. Without an earlier write only the first word is read.
pub open spec fn read_transfers(index: nat, n: nat, write_len: nat) -> Seq<I2cTransfer> {
    let count = if write_len == 0 || n == 0 {
        1
    } else {
        word_count(n)
    };
    Seq::new(
        count,
        |k: int|
            I2cTransfer {
                op: index as usize,
                len_tx: (if write_len > 4 {
                    5
                } else {
                    write_len
                }) as u8,
                len_rx: (if write_len > 4 {
                    0
                } else {
                    chunk_len(n, k as nat)
                }) as u8,
                word: 0,
                rx_offset: (4 * k) as usize,
                rx_count: chunk_payload(n, k as nat) as usize,
            },
    )
}

/// Transfers of operation `op`, number `index`, given the lengths of the most recent write and
/// read of the transaction up to and including `op`.
pub open spec fn transfers_for(index: nat, op: I2cOperation, write_len: nat, read_len: nat) -> Seq<
    I2cTransfer,
> {
    match op {
        I2cOperation::Write(b) => write_transfers(index, b@, read_len),
        I2cOperation::Read(b) => read_transfers(index, b@.len(), write_len),
    }
}

/// Length of the most recent write among the first `i` operations (zero if there is none).
pub open spec fn last_write_len(ops: Seq<I2cOperation>, i: int) -> nat
    decreases i,
{
    if i <= 0 {
        0
    } else {
        match ops[i - 1] {
            I2cOperation::Write(b) => b@.len(),
            I2cOperation::Read(_) => last_write_len(ops, i - 1),
        }
    }
}

/// Length of the most recent read among the first `i` operations (zero if there is none).
pub open spec fn last_read_len(ops: Seq<I2cOperation>, i: int) -> nat
    decreases i,
{
    if i <= 0 {
        0
    } else {
        match ops[i - 1] {
            I2cOperation::Read(b) => b@.len(),
            I2cOperation::Write(_) => last_read_len(ops, i - 1),
        }
    }
}

/// A read of more than 255 bytes, which ends the transaction before it.
pub open spec fn is_oversized(op: I2cOperation) -> bool {
    op is Read && op_buffer(op).len() > 255
}

/// Index of the first oversized read at or after `i` (the number of operations if none).
pub open spec fn first_oversized_from(ops: Seq<I2cOperation>, i: nat) -> nat
    decreases ops.len() - i,
{
    if i >= ops.len() {
        ops.len()
    } else if is_oversized(ops[i as int]) {
        i
    } else {
        first_oversized_from(ops, i + 1)
    }
}

/// Number of operations a transaction carries out: those before the first oversized read.
pub open spec fn performed_count(ops: Seq<I2cOperation>) -> nat {
    first_oversized_from(ops, 0)
}

/// Transfers of operation `i` of a transaction.
pub open spec fn op_transfers(ops: Seq<I2cOperation>, i: int) -> Seq<I2cTransfer> {
    transfers_for(i as nat, ops[i], last_write_len(ops, i + 1), last_read_len(ops, i + 1))
}

/// Transfers of the first `k` operations, in order.
pub open spec fn transfers_upto(ops: Seq<I2cOperation>, k: nat) -> Seq<I2cTransfer>
    decreases k,
{
    if k == 0 {
        Seq::empty()
    } else {
        transfers_upto(ops, (k - 1) as nat) + op_transfers(ops, k - 1)
    }
}

/// All transfers of a transaction, in order.
pub open spec fn planned_transfers(ops: Seq<I2cOperation>) -> Seq<I2cTransfer> {
    transfers_upto(ops, performed_count(ops))
}

/// Operation `i` cannot be carried out: an empty write, or a read that follows a write of more
/// than four bytes.
pub open spec fn op_is_unsupported(ops: Seq<I2cOperation>, i: int) -> bool {
    match ops[i] {
        I2cOperation::Write(b) => b@.len() == 0,
        I2cOperation::Read(b) => b@.len() > 0 && last_write_len(ops, i) > 4,
    }
}

/// Every operation that a transaction carries out can be carried out.
pub open spec fn transaction_is_supported(ops: Seq<I2cOperation>) -> bool {
    forall|j: int| 0 <= j < performed_count(ops) ==> !#[trigger] op_is_unsupported(ops, j)
}

proof fn lemma_word_count(n: nat, k: nat)
    ensures
        k < word_count(n) ==> 4 * k < n,
        n > 0 ==> word_count(n) >= 1,
        4 * k < n <= 4 * k + 4 ==> word_count(n) == k + 1,
        4 * k + 4 < n ==> word_count(n) > k + 1,
{
    assert(k < (n + 3) / 4 ==> 4 * k < n) by (nonlinear_arith);
    assert(n > 0 ==> (n + 3) / 4 >= 1) by (nonlinear_arith);
    assert(4 * k < n <= 4 * k + 4 ==> (n + 3) / 4 == k + 1) by (nonlinear_arith);
    assert(4 * k + 4 < n ==> (n + 3) / 4 > k + 1) by (nonlinear_arith);
}

proof fn lemma_first_oversized_from_bounds(ops: Seq<I2cOperation>, i: nat)
    requires
        i <= ops.len(),
    ensures
        i <= first_oversized_from(ops, i) <= ops.len(),
    decreases ops.len() - i,
{
    if i < ops.len() && !is_oversized(ops[i as int]) {
        lemma_first_oversized_from_bounds(ops, i + 1);
    }
}

proof fn lemma_last_read_len_small(ops: Seq<I2cOperation>, i: int)
    requires
        0 <= i <= ops.len(),
        forall|j: int| 0 <= j < i ==> !is_oversized(#[trigger] ops[j]),
    ensures
        last_read_len(ops, i) <= 255,
    decreases i,
{
    if i > 0 {
        assert(!is_oversized(ops[i - 1]));
        lemma_last_read_len_small(ops, i - 1);
    }
}

/// Appends to `plan` the transfers of one operation, as the core's transfer loop produces them:
/// words of at most four bytes, the transfer length `5` announcing that more follow.
fn push_op_transfers(
    plan: &mut Vec<I2cTransfer>,
    index: usize,
    op: &I2cOperation,
    len_tx_buf: usize,
    len_rx_buf: usize,
)
    requires
        len_rx_buf <= 255,
        match *op {
            I2cOperation::Write(b) => len_tx_buf == b@.len() && b@.len() > 0,
            I2cOperation::Read(b) => len_rx_buf == b@.len() && (b@.len() > 0 ==> len_tx_buf <= 4),
        },
    ensures
        final(plan)@ == old(plan)@ + transfers_for(
            index as nat,
            *op,
            len_tx_buf as nat,
            len_rx_buf as nat,
        ),
{
    let ghost expected = transfers_for(index as nat, *op, len_tx_buf as nat, len_rx_buf as nat);
    let ghost start = plan@;
    let ghost is_write = op is Write;
    let mut tx_j: usize = 0;
    let mut rx_j: usize = 0;
    let mut k: usize = 0;
    loop
        invariant_except_break
            k < expected.len(),
            is_write ==> tx_j == 4 * k && tx_j < len_tx_buf && rx_j == 0,
            !is_write ==> rx_j == 4 * k && (rx_j < len_rx_buf || k == 0) && tx_j == 0,
            tx_j <= len_tx_buf,
            rx_j <= len_rx_buf,
            plan@ == start + expected.take(k as int),
        invariant
            is_write == (op is Write),
            len_rx_buf <= 255,
            expected == transfers_for(index as nat, *op, len_tx_buf as nat, len_rx_buf as nat),
            match *op {
                I2cOperation::Write(b) => len_tx_buf == b@.len() && b@.len() > 0,
                I2cOperation::Read(b) => len_rx_buf == b@.len() && (b@.len() > 0 ==> len_tx_buf
                    <= 4),
            },
        ensures
            plan@ == start + expected,
        decreases expected.len() - k,
    {
        let len_tx: u8;
        let len_rx: u8;
        if len_tx_buf - tx_j > 4 {
            len_tx = 5;
            len_rx = 0;
        } else {
            len_tx = (len_tx_buf - tx_j) as u8;
            if len_rx_buf - rx_j > 4 {
                len_rx = 5;
            } else {
                len_rx = (len_rx_buf - rx_j) as u8;
            }
        }
        let rx_offset: usize = rx_j;
        let mut word: u32 = 0;
        let mut rx_count: usize = 0;
        match op {
            I2cOperation::Write(b) => {
                let n: usize = if len_tx > 4 {
                    4
                } else {
                    len_tx as usize
                };
                word = pack_word(b.as_slice(), tx_j, n);
                tx_j = tx_j + n;
            },
            I2cOperation::Read(_) => {
                if len_rx_buf > 0 {
                    let n: usize = if len_rx > 4 {
                        4
                    } else {
                        len_rx as usize
                    };
                    rx_count = n;
                    rx_j = rx_j + n;
                }
            },
        }
        let t = I2cTransfer { op: index, len_tx, len_rx, word, rx_offset, rx_count };
        assert(t == expected[k as int]);
        plan.push(t);
        assert(plan@ == start + expected.take(k + 1));
        k = k + 1;
        if tx_j >= len_tx_buf || rx_j >= len_rx_buf {
            assert(k == expected.len());
            assert(expected.take(k as int) == expected);
            break;
        }
    }
}

/// Index of the first operation, at or after `i`, at which a transaction stops before the end:
/// an oversized read, or an operation that cannot be carried out (the number of operations if
/// there is none).
pub open spec fn first_stop_from(ops: Seq<I2cOperation>, i: nat) -> nat
    decreases ops.len() - i,
{
    if i >= ops.len() {
        ops.len()
    } else if is_oversized(ops[i as int]) || op_is_unsupported(ops, i as int) {
        i
    } else {
        first_stop_from(ops, i + 1)
    }
}

/// Index of the operation at which a transaction stops (the number of operations if it runs
/// to the end).
pub open spec fn stop_index(ops: Seq<I2cOperation>) -> nat {
    first_stop_from(ops, 0)
}

/// The driver gives up on the transaction: it reaches an operation it cannot carry out.
pub open spec fn transaction_aborts(ops: Seq<I2cOperation>) -> bool {
    stop_index(ops) < ops.len() && !is_oversized(ops[stop_index(ops) as int])
}

/// The transfer made for a read that follows a write of more than four bytes: the core is
/// told more bytes are to be sent and none received, and the word that comes back is dropped.
/// The driver gives up right after it.
pub open spec fn probe_transfer(index: nat) -> I2cTransfer {
    I2cTransfer { op: index as usize, len_tx: 5, len_rx: 0, word: 0, rx_offset: 0, rx_count: 0 }
}

/// The transfers a transaction carries out: those of the operations before it stops, then,
/// when it gives up on a read, the transfer made for that read.
pub open spec fn transaction_transfers(ops: Seq<I2cOperation>) -> Seq<I2cTransfer> {
    let k = stop_index(ops);
    if transaction_aborts(ops) && ops[k as int] is Read {
        transfers_upto(ops, k).push(probe_transfer(k))
    } else {
        transfers_upto(ops, k)
    }
}

proof fn lemma_first_stop_bounds(ops: Seq<I2cOperation>, i: nat)
    requires
        i <= ops.len(),
    ensures
        i <= first_stop_from(ops, i) <= ops.len(),
        forall|m: int|
            i <= m < first_stop_from(ops, i) ==> !is_oversized(#[trigger] ops[m])
                && !op_is_unsupported(ops, m),
    decreases ops.len() - i,
{
    if i < ops.len() && !is_oversized(ops[i as int]) && !op_is_unsupported(ops, i as int) {
        lemma_first_stop_bounds(ops, i + 1);
        assert forall|m: int| i <= m < first_stop_from(ops, i) implies !is_oversized(
            #[trigger] ops[m],
        ) && !op_is_unsupported(ops, m) by {
            if m > i {
                assert(!is_oversized(ops[m]) && !op_is_unsupported(ops, m));
            }
        }
    }
}

proof fn lemma_stop_at_performed(ops: Seq<I2cOperation>, i: nat)
    requires
        transaction_is_supported(ops),
        i <= performed_count(ops),
        performed_count(ops) <= ops.len(),
    ensures
        first_stop_from(ops, i) == performed_count(ops),
    decreases performed_count(ops) - i,
{
    let p = performed_count(ops);
    if i < p {
        lemma_no_oversized_before(ops, 0, i as int);
        assert(!op_is_unsupported(ops, i as int));
        lemma_stop_at_performed(ops, i + 1);
    } else if p < ops.len() {
        lemma_first_oversized_from_bounds(ops, 0);
        lemma_oversized_at_performed(ops, 0);
    }
}

proof fn lemma_oversized_at_performed(ops: Seq<I2cOperation>, i: nat)
    requires
        i <= first_oversized_from(ops, i) < ops.len(),
    ensures
        is_oversized(ops[first_oversized_from(ops, i) as int]),
    decreases ops.len() - i,
{
    if !is_oversized(ops[i as int]) {
        lemma_first_oversized_from_bounds(ops, i + 1);
        lemma_oversized_at_performed(ops, i + 1);
    }
}

/// A supported transaction runs to its end: the driver does not give up, and it carries out
/// exactly the planned transfers.
pub proof fn lemma_supported_transaction_runs_to_end(ops: Seq<I2cOperation>)
    requires
        transaction_is_supported(ops),
    ensures
        !transaction_aborts(ops),
        stop_index(ops) == performed_count(ops),
        transaction_transfers(ops) == planned_transfers(ops),
{
    lemma_first_oversized_from_bounds(ops, 0);
    lemma_stop_at_performed(ops, 0);
    if performed_count(ops) < ops.len() {
        lemma_oversized_at_performed(ops, 0);
    }
}

/// The transfers of a transaction, computed as the core's driver loop walks the operations,
/// and whether the driver gives up after them.
pub fn plan_transfers(ops: &Vec<I2cOperation>) -> (res: (Vec<I2cTransfer>, bool))
    ensures
        res.0@ == transaction_transfers(ops@),
        res.1 == transaction_aborts(ops@),
{
    let mut plan: Vec<I2cTransfer> = Vec::new();
    let mut len_tx_buf: usize = 0;
    let mut len_rx_buf: usize = 0;
    let mut i: usize = 0;
    while i < ops.len()
        invariant
            0 <= i <= ops.len(),
            len_tx_buf == last_write_len(ops@, i as int),
            len_rx_buf == last_read_len(ops@, i as int),
            forall|j: int|
                0 <= j < i ==> !is_oversized(#[trigger] ops@[j]) && !op_is_unsupported(ops@, j),
            first_stop_from(ops@, 0) == first_stop_from(ops@, i as nat),
            plan@ == transfers_upto(ops@, i as nat),
        decreases ops.len() - i,
    {
        proof {
            lemma_last_read_len_small(ops@, i as int);
        }
        let ntx: usize;
        let nrx: usize;
        match &ops[i] {
            I2cOperation::Read(b) => {
                ntx = len_tx_buf;
                nrx = b.len();
            },
            I2cOperation::Write(b) => {
                ntx = b.len();
                nrx = len_rx_buf;
            },
        }
        if nrx > 255 {
            assert(is_oversized(ops@[i as int]));
            return (plan, false);
        }
        assert(!is_oversized(ops@[i as int]));
        let unsupported = match &ops[i] {
            I2cOperation::Read(b) => b.len() > 0 && len_tx_buf > 4,
            I2cOperation::Write(b) => b.len() == 0,
        };
        assert(unsupported == op_is_unsupported(ops@, i as int));
        if unsupported {
            assert(stop_index(ops@) == i);
            if matches!(&ops[i], I2cOperation::Read(_)) {
                let probe = I2cTransfer {
                    op: i,
                    len_tx: 5,
                    len_rx: 0,
                    word: 0,
                    rx_offset: 0,
                    rx_count: 0,
                };
                plan.push(probe);
            }
            return (plan, true);
        }
        push_op_transfers(&mut plan, i, &ops[i], ntx, nrx);
        len_tx_buf = ntx;
        len_rx_buf = nrx;
        i = i + 1;
    }
    (plan, false)
}

/// The place a transfer stores received bytes lies inside a read buffer of the transaction.
pub open spec fn transfer_fits(ops: Seq<I2cOperation>, t: I2cTransfer) -> bool {
    &&& t.op < ops.len()
    &&& t.len_tx <= 5
    &&& t.len_rx <= 5
    &&& t.rx_count <= 4
    &&& t.rx_count > 0 ==> ops[t.op as int] is Read && t.rx_offset + t.rx_count <= op_buffer(
        ops[t.op as int],
    ).len()
}

/// Every planned transfer belongs to an operation of the transaction, announces lengths the
/// core accepts, and stores what it receives inside the read buffer of its operation.
pub proof fn lemma_planned_transfers_fit(ops: Seq<I2cOperation>)
    requires
        ops.len() <= usize::MAX,
        transaction_is_supported(ops),
    ensures
        forall|i: int|
            0 <= i < planned_transfers(ops).len() ==> transfer_fits(
                ops,
                #[trigger] planned_transfers(ops)[i],
            ),
{
    lemma_first_oversized_from_bounds(ops, 0);
    let p = performed_count(ops);
    assert forall|j: int| 0 <= j < p implies !is_oversized(#[trigger] ops[j]) && !op_is_unsupported(
        ops,
        j,
    ) by {
        lemma_no_oversized_before(ops, 0, j);
    }
    lemma_transfers_upto_fit(ops, p);
}

/// Every transfer a transaction carries out belongs to one of its operations, announces
/// lengths the core accepts, and stores what it receives inside the read buffer of its
/// operation.
pub proof fn lemma_transaction_transfers_fit(ops: Seq<I2cOperation>)
    requires
        ops.len() <= usize::MAX,
    ensures
        forall|i: int|
            0 <= i < transaction_transfers(ops).len() ==> transfer_fits(
                ops,
                #[trigger] transaction_transfers(ops)[i],
            ),
{
    lemma_first_stop_bounds(ops, 0);
    let k = stop_index(ops);
    lemma_transfers_upto_fit(ops, k);
    let prefix = transfers_upto(ops, k);
    assert forall|i: int|
        0 <= i < transaction_transfers(ops).len() implies transfer_fits(
        ops,
        #[trigger] transaction_transfers(ops)[i],
    ) by {
        if i < prefix.len() {
            assert(transaction_transfers(ops)[i] == prefix[i]);
        }
    }
}

proof fn lemma_transfers_upto_fit(ops: Seq<I2cOperation>, k: nat)
    requires
        k <= ops.len() <= usize::MAX,
        forall|j: int|
            0 <= j < k ==> !is_oversized(#[trigger] ops[j]) && !op_is_unsupported(ops, j),
    ensures
        forall|i: int|
            0 <= i < transfers_upto(ops, k).len() ==> transfer_fits(
                ops,
                #[trigger] transfers_upto(ops, k)[i],
            ),
    decreases k,
{
    if k > 0 {
        let j = k - 1;
        lemma_transfers_upto_fit(ops, j as nat);
        assert(!op_is_unsupported(ops, j));
        assert(forall|m: int| 0 <= m <= j ==> !is_oversized(#[trigger] ops[m]));
        lemma_last_read_len_small(ops, j + 1);
        let prev = transfers_upto(ops, j as nat);
        let cur = op_transfers(ops, j);
        assert forall|i: int| 0 <= i < cur.len() implies transfer_fits(ops, #[trigger] cur[i]) by {
            match ops[j] {
                I2cOperation::Write(b) => {},
                I2cOperation::Read(b) => {
                    let n = b@.len();
                    lemma_word_count(n, i as nat);
                    assert(last_write_len(ops, j + 1) == last_write_len(ops, j));
                    assert(cur[i].rx_offset == 4 * i);
                    assert(cur[i].rx_count == chunk_payload(n, i as nat));
                },
            }
        }
        assert forall|i: int|
            0 <= i < transfers_upto(ops, k).len() implies transfer_fits(
            ops,
            #[trigger] transfers_upto(ops, k)[i],
        ) by {
            if i < prev.len() {
                assert(transfers_upto(ops, k)[i] == prev[i]);
            } else {
                assert(transfers_upto(ops, k)[i] == cur[i - prev.len()]);
            }
        }
    }
}

proof fn lemma_no_oversized_before(ops: Seq<I2cOperation>, i: nat, j: int)
    requires
        i <= j < first_oversized_from(ops, i),
        first_oversized_from(ops, i) <= ops.len(),
    ensures
        forall|m: int| i <= m <= j ==> !is_oversized(#[trigger] ops[m]),
    decreases ops.len() - i,
{
    assert(i < ops.len());
    if is_oversized(ops[i as int]) {
        assert(first_oversized_from(ops, i) == i);
    }
    assert(first_oversized_from(ops, i) == first_oversized_from(ops, i + 1));
    if i < j {
        lemma_no_oversized_before(ops, i + 1, j);
    }
}
/// Number of data bytes a transfer carries, given the transfer length it announces.
pub open spec fn tx_payload(t: I2cTransfer) -> nat {
    if t.len_tx > 4 {
        4
    } else {
        t.len_tx as nat
    }
}

/// The bytes a sequence of transfers puts on the bus, in order.
pub open spec fn sent_bytes(ts: Seq<I2cTransfer>) -> Seq<u8>
    decreases ts.len(),
{
    if ts.len() == 0 {
        Seq::empty()
    } else {
        sent_bytes(ts.drop_last()) + be_bytes(ts.last().word, tx_payload(ts.last()))
    }
}

/// Number of bytes of an `n`-byte buffer that its operation moves: all of them once the
/// transaction has done the other kind of operation (`other_len` is the length of the most
/// recent one, zero if none), the first word's worth otherwise.
pub open spec fn moved_len(n: nat, other_len: nat) -> nat {
    if other_len == 0 && n > 4 {
        4
    } else {
        n
    }
}

/// A write puts its bytes on the bus in order: all of them when the transaction read before,
/// else the first four.
pub proof fn lemma_write_sends_buffer(ops: Seq<I2cOperation>, i: int)
    requires
        transaction_is_supported(ops),
        0 <= i < performed_count(ops),
        ops[i] is Write,
    ensures
        sent_bytes(op_transfers(ops, i)) == op_buffer(ops[i]).take(
            moved_len(op_buffer(ops[i]).len(), last_read_len(ops, i)) as int,
        ),
{
    assert(!op_is_unsupported(ops, i));
    let b = op_buffer(ops[i]);
    let w = b.len();
    let r = last_read_len(ops, i);
    assert(last_read_len(ops, i + 1) == r);
    let ts = op_transfers(ops, i);
    assert(ts == write_transfers(i as nat, b, r));
    lemma_word_count(w, 0);
    lemma_sent_prefix(i as nat, b, r, ts.len());
    let c = ts.len();
    lemma_word_count(w, (c - 1) as nat);
    assert(ts.take(c as int) == ts);
}

proof fn lemma_sent_prefix(index: nat, b: Seq<u8>, r: nat, k: nat)
    requires
        b.len() > 0,
        k <= write_transfers(index, b, r).len(),
    ensures
        ({
            let ts = write_transfers(index, b, r);
            let end = if k == 0 {
                0
            } else {
                4 * (k - 1) + chunk_payload(b.len(), (k - 1) as nat)
            };
            &&& end <= b.len()
            &&& sent_bytes(ts.take(k as int)) == b.take(end as int)
        }),
    decreases k,
{
    let ts = write_transfers(index, b, r);
    let w = b.len();
    if k == 0 {
        assert(ts.take(0) =~= Seq::<I2cTransfer>::empty());
        assert(b.take(0) =~= Seq::<u8>::empty());
    } else {
        let j = (k - 1) as nat;
        let ji = j as int;
        lemma_sent_prefix(index, b, r, j);
        lemma_word_count(w, j);
        if j > 0 {
            lemma_word_count(w, (j - 1) as nat);
        }
        let prev_end = if j == 0 {
            0
        } else {
            4 * (j - 1) + chunk_payload(w, (j - 1) as nat)
        };
        assert(prev_end == 4 * j);
        let p = chunk_payload(w, j);
        let chunk = b.subrange(4 * ji, 4 * ji + p);
        lemma_pack_unpack_roundtrip(chunk);
        assert(ts.take(k as int).drop_last() == ts.take(j as int));
        assert(ts.take(k as int).last() == ts[j as int]);
        assert(tx_payload(ts[j as int]) == p);
        assert(b.take(4 * ji) + chunk =~= b.take(4 * ji + p));
    }
}

/// A read stores what it receives side by side from the start of its buffer, four bytes per
/// word: all of the buffer when the transaction wrote before, else the first word's worth.
pub proof fn lemma_read_fills_buffer(ops: Seq<I2cOperation>, i: int)
    requires
        transaction_is_supported(ops),
        0 <= i < performed_count(ops),
        ops[i] is Read,
    ensures
        ({
            let ts = op_transfers(ops, i);
            let n = op_buffer(ops[i]).len();
            &&& ts.len() > 0
            &&& forall|k: int| 0 <= k < ts.len() ==> (#[trigger] ts[k]).rx_offset == 4 * k
            &&& forall|k: int| 0 <= k < ts.len() - 1 ==> (#[trigger] ts[k]).rx_count == 4
            &&& ts.last().rx_offset + ts.last().rx_count == moved_len(n, last_write_len(ops, i))
        }),
{
    assert(!op_is_unsupported(ops, i));
    let n = op_buffer(ops[i]).len();
    let wl = last_write_len(ops, i);
    assert(last_write_len(ops, i + 1) == wl);
    lemma_first_oversized_from_bounds(ops, 0);
    lemma_no_oversized_before(ops, 0, i);
    let ts = op_transfers(ops, i);
    assert(ts == read_transfers(i as nat, n, wl));
    lemma_word_count(n, 0);
    assert forall|k: int| 0 <= k < ts.len() implies (#[trigger] ts[k]).rx_offset == 4 * k by {
        lemma_word_count(n, k as nat);
    }
    assert forall|k: int| 0 <= k < ts.len() - 1 implies (#[trigger] ts[k]).rx_count == 4 by {
        lemma_word_count(n, k as nat);
        lemma_word_count(n, (k + 1) as nat);
    }
    let c = ts.len();
    lemma_word_count(n, (c - 1) as nat);
}

// ---------------------------------------------------------------------------------------------
// Transaction: the register accesses of one I2C transaction, one at a time.
// ---------------------------------------------------------------------------------------------

/// A register access the transaction asks for.
#[derive(Debug, Copy, Clone, PartialEq, Eq)]
pub enum I2cAction {
    /// Write `master_active` (`1` to activate the master, `0` to release it).
    SetActive(bool),
    /// Read `master_status` and answer with [`I2cReply::Status`].
    ReadStatus,
    /// Read `master_rxtx` and answer with [`I2cReply::Data`].
    ReadData,
    /// Write `master_addr`.
    WriteAddress(u32),
    /// Write `master_settings` (with `recover` cleared).
    WriteSettings { len_tx: u8, len_rx: u8 },
    /// Write `master_rxtx`.
    WriteData(u32),
    /// The transaction is over, with this outcome.
    Done(Result<(), LiteI2CError>),
    /// The driver gives up: it has reached an operation it cannot carry out (an empty write,
    /// or a read after a write of more than four bytes). The master is left active.
    Abort,
}

/// What the register access asked for gave.
#[derive(Debug, Copy, Clone, PartialEq, Eq)]
pub enum I2cReply {
    /// A write was carried out.
    Written,
    /// The fields of `master_status`.
    Status { rx_ready: bool, tx_ready: bool, nack: bool },
    /// The value of `master_rxtx`.
    Data(u32),
}

/// Where a transaction stands.
#[derive(Debug, Copy, Clone, PartialEq, Eq)]
pub enum I2cPhase {
    /// The master is to be activated.
    Start,
    /// Draining the receive buffer: the status tells whether a word is waiting.
    Flush,
    /// A waiting word is read and dropped.
    Discard,
    /// Waiting for the core to accept data.
    WaitTxReady,
    /// The target address is to be written.
    Address,
    /// The settings of the current transfer are to be written.
    Settings,
    /// The word of the current transfer is to be written.
    Send,
    /// Waiting for the current transfer to complete.
    WaitRxReady,
    /// The status is read again to see whether the target acknowledged.
    CheckNack,
    /// The word that came back is to be read.
    Receive,
    /// The master is to be released; the transaction then ends with this outcome.
    Deactivate(Result<(), LiteI2CError>),
    /// The transaction is over.
    Finished(Result<(), LiteI2CError>),
    /// The driver has given up on the transaction.
    Aborted,
}

/// Which operations are reads.
pub open spec fn op_kinds(ops: Seq<I2cOperation>) -> Seq<bool> {
    Seq::new(ops.len(), |i: int| ops[i] is Read)
}

/// The buffers of the operations.
pub open spec fn op_buffers(ops: Seq<I2cOperation>) -> Seq<Seq<u8>> {
    Seq::new(ops.len(), |i: int| op_buffer(ops[i]))
}

/// The place a transfer stores received bytes lies inside a read buffer, given which
/// operations are reads and their buffers.
pub open spec fn transfer_fits_in(kinds: Seq<bool>, buffers: Seq<Seq<u8>>, t: I2cTransfer) -> bool {
    &&& t.op < kinds.len()
    &&& t.rx_count <= 4
    &&& t.rx_count > 0 ==> kinds[t.op as int] && t.rx_offset + t.rx_count <= buffers[t.op as int].len()
}

/// `buffers` once the bytes of `word` that transfer `t` keeps are stored.
pub open spec fn store_received(buffers: Seq<Seq<u8>>, t: I2cTransfer, word: u32) -> Seq<Seq<u8>> {
    if t.rx_count == 0 {
        buffers
    } else {
        buffers.update(
            t.op as int,
            splice(buffers[t.op as int], t.rx_offset as int, be_bytes(word, t.rx_count as nat)),
        )
    }
}

/// What a transaction is: the target, the operations (which are reads, and their buffers, read
/// buffers holding what has been received so far), the transfers it carries out, whether the
/// driver gives up after them, how many are completed, and where it stands.
pub struct I2cTransactionView {
    pub address: u8,
    pub kinds: Seq<bool>,
    pub buffers: Seq<Seq<u8>>,
    pub transfers: Seq<I2cTransfer>,
    pub aborts: bool,
    pub position: nat,
    pub phase: I2cPhase,
}

impl I2cTransactionView {
    /// Internal consistency of a transaction.
    pub open spec fn wf(self) -> bool {
        &&& self.position <= self.transfers.len()
        &&& self.kinds.len() == self.buffers.len()
        &&& self.kinds.len() <= usize::MAX
        &&& forall|i: int|
            0 <= i < self.transfers.len() ==> transfer_fits_in(
                self.kinds,
                self.buffers,
                #[trigger] self.transfers[i],
            )
        &&& (self.phase is Settings || self.phase is Send || self.phase is WaitRxReady
            || self.phase is CheckNack || self.phase is Receive) ==> self.position
            < self.transfers.len()
    }

    /// The current transfer.
    pub open spec fn current_transfer(self) -> I2cTransfer {
        self.transfers[self.position as int]
    }

    /// The register access the transaction asks for next.
    pub open spec fn pending(self) -> I2cAction {
        match self.phase {
            I2cPhase::Start => I2cAction::SetActive(true),
            I2cPhase::Flush => I2cAction::ReadStatus,
            I2cPhase::Discard => I2cAction::ReadData,
            I2cPhase::WaitTxReady => I2cAction::ReadStatus,
            I2cPhase::Address => I2cAction::WriteAddress(self.address as u32),
            I2cPhase::Settings => I2cAction::WriteSettings {
                len_tx: self.current_transfer().len_tx,
                len_rx: self.current_transfer().len_rx,
            },
            I2cPhase::Send => I2cAction::WriteData(self.current_transfer().word),
            I2cPhase::WaitRxReady => I2cAction::ReadStatus,
            I2cPhase::CheckNack => I2cAction::ReadStatus,
            I2cPhase::Receive => I2cAction::ReadData,
            I2cPhase::Deactivate(_) => I2cAction::SetActive(false),
            I2cPhase::Finished(r) => I2cAction::Done(r),
            I2cPhase::Aborted => I2cAction::Abort,
        }
    }

    /// The transaction moved to `phase`, with nothing else changed.
    pub open spec fn moved(self, phase: I2cPhase) -> Self {
        I2cTransactionView { phase, ..self }
    }

    /// Phase in which transfer number `next` begins; when all are done, the master is
    /// released, or the driver gives up if the transaction aborts.
    pub open spec fn phase_for_transfer(self, next: nat) -> I2cPhase {
        if next < self.transfers.len() {
            I2cPhase::Settings
        } else if self.aborts {
            I2cPhase::Aborted
        } else {
            I2cPhase::Deactivate(Ok(()))
        }
    }

    /// The buffers once the bytes of `word` that the current transfer keeps are stored.
    pub open spec fn buffers_receiving(self, word: u32) -> Seq<Seq<u8>> {
        store_received(self.buffers, self.current_transfer(), word)
    }

    /// How the transaction moves on when its pending register access gave `reply`. A reply of
    /// the wrong kind leaves it where it is.
    pub open spec fn next(self, reply: I2cReply) -> Self {
        match (self.phase, reply) {
            (I2cPhase::Start, I2cReply::Written) => self.moved(I2cPhase::Flush),
            (I2cPhase::Flush, I2cReply::Status { rx_ready, .. }) => self.moved(
                if rx_ready {
                    I2cPhase::Discard
                } else {
                    I2cPhase::WaitTxReady
                },
            ),
            (I2cPhase::Discard, I2cReply::Data(_)) => self.moved(I2cPhase::Flush),
            (I2cPhase::WaitTxReady, I2cReply::Status { tx_ready, .. }) => self.moved(
                if tx_ready {
                    I2cPhase::Address
                } else {
                    I2cPhase::WaitTxReady
                },
            ),
            (I2cPhase::Address, I2cReply::Written) => self.moved(
                self.phase_for_transfer(self.position),
            ),
            (I2cPhase::Settings, I2cReply::Written) => self.moved(I2cPhase::Send),
            (I2cPhase::Send, I2cReply::Written) => self.moved(I2cPhase::WaitRxReady),
            (I2cPhase::WaitRxReady, I2cReply::Status { rx_ready, .. }) => self.moved(
                if rx_ready {
                    I2cPhase::CheckNack
                } else {
                    I2cPhase::WaitRxReady
                },
            ),
            (I2cPhase::CheckNack, I2cReply::Status { nack, .. }) => self.moved(
                if nack {
                    I2cPhase::Deactivate(Err(LiteI2CError::NACK))
                } else {
                    I2cPhase::Receive
                },
            ),
            (I2cPhase::Receive, I2cReply::Data(word)) => I2cTransactionView {
                buffers: self.buffers_receiving(word),
                position: self.position + 1,
                phase: self.phase_for_transfer(self.position + 1),
                ..self
            },
            (I2cPhase::Deactivate(r), I2cReply::Written) => self.moved(I2cPhase::Finished(r)),
            _ => self,
        }
    }
}

/// Reply of a target that is always ready and acknowledges every transfer, the word read
/// back for transfer number `i` being `words[i]`.
pub open spec fn acknowledging_reply(v: I2cTransactionView, words: Seq<u32>) -> I2cReply {
    match v.phase {
        I2cPhase::Flush => I2cReply::Status { rx_ready: false, tx_ready: true, nack: false },
        I2cPhase::WaitTxReady => I2cReply::Status { rx_ready: true, tx_ready: true, nack: false },
        I2cPhase::WaitRxReady => I2cReply::Status { rx_ready: true, tx_ready: true, nack: false },
        I2cPhase::CheckNack => I2cReply::Status { rx_ready: true, tx_ready: true, nack: false },
        I2cPhase::Discard => I2cReply::Data(0),
        I2cPhase::Receive => I2cReply::Data(words[v.position as int]),
        _ => I2cReply::Written,
    }
}

/// The transaction after `steps` register accesses answered by an acknowledging target.
pub open spec fn run_ack(v: I2cTransactionView, words: Seq<u32>, steps: nat) -> I2cTransactionView
    decreases steps,
{
    if steps == 0 {
        v
    } else {
        run_ack(v.next(acknowledging_reply(v, words)), words, (steps - 1) as nat)
    }
}

/// The first `steps` register accesses of the transaction, answered by an acknowledging
/// target.
pub open spec fn accesses_ack(v: I2cTransactionView, words: Seq<u32>, steps: nat) -> Seq<
    I2cAction,
>
    decreases steps,
{
    if steps == 0 {
        Seq::empty()
    } else {
        seq![v.pending()] + accesses_ack(v.next(acknowledging_reply(v, words)), words, (steps - 1) as nat)
    }
}

proof fn lemma_run_ack_split(v: I2cTransactionView, words: Seq<u32>, a: nat, b: nat)
    ensures
        run_ack(v, words, a + b) == run_ack(run_ack(v, words, a), words, b),
        accesses_ack(v, words, a + b) == accesses_ack(v, words, a) + accesses_ack(
            run_ack(v, words, a),
            words,
            b,
        ),
    decreases a,
{
    if a == 0 {
        assert(accesses_ack(v, words, 0) + accesses_ack(v, words, b) =~= accesses_ack(
            v,
            words,
            b,
        ));
    } else {
        let w = v.next(acknowledging_reply(v, words));
        lemma_run_ack_split(w, words, (a - 1) as nat, b);
        assert((a + b - 1) as nat == (a - 1) as nat + b);
        assert(seq![v.pending()] + (accesses_ack(w, words, (a - 1) as nat) + accesses_ack(
            run_ack(w, words, (a - 1) as nat),
            words,
            b,
        )) =~= (seq![v.pending()] + accesses_ack(w, words, (a - 1) as nat)) + accesses_ack(
            run_ack(w, words, (a - 1) as nat),
            words,
            b,
        ));
    }
}

/// Register accesses of one acknowledged transfer: its settings, its word, the wait for
/// completion, the acknowledge check, and the read of the word that came back.
pub open spec fn transfer_accesses(t: I2cTransfer) -> Seq<I2cAction> {
    seq![
        I2cAction::WriteSettings { len_tx: t.len_tx, len_rx: t.len_rx },
        I2cAction::WriteData(t.word),
        I2cAction::ReadStatus,
        I2cAction::ReadStatus,
        I2cAction::ReadData,
    ]
}

/// Register accesses of an acknowledged transaction up to its first `k` transfers: the master
/// is activated, the receive buffer found empty, the core found ready, the address written,
/// and then each transfer carried out in turn.
pub open spec fn transaction_accesses(v: I2cTransactionView, k: nat) -> Seq<I2cAction>
    decreases k,
{
    if k == 0 {
        seq![
            I2cAction::SetActive(true),
            I2cAction::ReadStatus,
            I2cAction::ReadStatus,
            I2cAction::WriteAddress(v.address as u32),
        ]
    } else {
        transaction_accesses(v, (k - 1) as nat) + transfer_accesses(v.transfers[k - 1])
    }
}

/// `buffers` once the words of the first `k` transfers have been received.
pub open spec fn stored_all(buffers: Seq<Seq<u8>>, ts: Seq<I2cTransfer>, words: Seq<u32>, k: nat) -> Seq<
    Seq<u8>,
>
    decreases k,
{
    if k == 0 {
        buffers
    } else {
        store_received(stored_all(buffers, ts, words, (k - 1) as nat), ts[k - 1], words[k - 1])
    }
}

proof fn lemma_acknowledged_prefix(v: I2cTransactionView, words: Seq<u32>, k: nat)
    requires
        v.wf(),
        v.phase == I2cPhase::Start,
        v.position == 0,
        k <= v.transfers.len(),
        words.len() >= v.transfers.len(),
    ensures
        accesses_ack(v, words, 4 + 5 * k) == transaction_accesses(v, k),
        run_ack(v, words, 4 + 5 * k) == (I2cTransactionView {
            buffers: stored_all(v.buffers, v.transfers, words, k),
            position: k,
            phase: v.phase_for_transfer(k),
            ..v
        }),
    decreases k,
{
    reveal_with_fuel(run_ack, 6);
    reveal_with_fuel(accesses_ack, 6);
    if k == 0 {
        let u1 = v.next(acknowledging_reply(v, words));
        let u2 = u1.next(acknowledging_reply(u1, words));
        let u3 = u2.next(acknowledging_reply(u2, words));
        let u4 = u3.next(acknowledging_reply(u3, words));
        assert(u4 == run_ack(v, words, 4));
        assert(accesses_ack(v, words, 4) =~= transaction_accesses(v, 0));
    } else {
        let j = (k - 1) as nat;
        lemma_acknowledged_prefix(v, words, j);
        lemma_run_ack_split(v, words, 4 + 5 * j, 5);
        assert(4 + 5 * k == (4 + 5 * j) + 5);
        let u = run_ack(v, words, 4 + 5 * j);
        let u1 = u.next(acknowledging_reply(u, words));
        let u2 = u1.next(acknowledging_reply(u1, words));
        let u3 = u2.next(acknowledging_reply(u2, words));
        let u4 = u3.next(acknowledging_reply(u3, words));
        let u5 = u4.next(acknowledging_reply(u4, words));
        assert(u5 == run_ack(u, words, 5));
        assert(u5.buffers == stored_all(v.buffers, v.transfers, words, k));
        assert(accesses_ack(u, words, 5) =~= transfer_accesses(v.transfers[j as int]));
    }
}

/// With a target that is always ready and acknowledges every transfer, a transaction carries
/// out every planned transfer, in order, between activating the master and releasing it; it
/// ends without error, each read buffer holding the bytes of the words read back.
pub proof fn lemma_acknowledged_transaction(v: I2cTransactionView, words: Seq<u32>)
    requires
        v.wf(),
        !v.aborts,
        v.phase == I2cPhase::Start,
        v.position == 0,
        words.len() >= v.transfers.len(),
    ensures
        ({
            let steps = 5 + 5 * v.transfers.len();
            let end = run_ack(v, words, steps);
            &&& accesses_ack(v, words, steps) == transaction_accesses(v, v.transfers.len()) + seq![
                I2cAction::SetActive(false),
            ]
            &&& end.pending() == I2cAction::Done(Ok(()))
            &&& end.buffers == stored_all(v.buffers, v.transfers, words, v.transfers.len())
        }),
{
    let n = v.transfers.len();
    lemma_acknowledged_prefix(v, words, n);
    lemma_run_ack_split(v, words, 4 + 5 * n, 1);
    assert(5 + 5 * n == (4 + 5 * n) + 1);
    let u = run_ack(v, words, 4 + 5 * n);
    reveal_with_fuel(run_ack, 2);
    reveal_with_fuel(accesses_ack, 2);
    assert(accesses_ack(u, words, 1) =~= seq![I2cAction::SetActive(false)]);
}

/// With a target that is always ready and acknowledges every transfer, a transaction the
/// driver gives up on carries out every transfer before that point, in order, after
/// activating the master, and then asks to give up, with the master still active.
pub proof fn lemma_acknowledged_transaction_aborts(v: I2cTransactionView, words: Seq<u32>)
    requires
        v.wf(),
        v.aborts,
        v.phase == I2cPhase::Start,
        v.position == 0,
        words.len() >= v.transfers.len(),
    ensures
        ({
            let steps = 4 + 5 * v.transfers.len();
            &&& accesses_ack(v, words, steps) == transaction_accesses(v, v.transfers.len())
            &&& run_ack(v, words, steps).pending() == I2cAction::Abort
        }),
{
    lemma_acknowledged_prefix(v, words, v.transfers.len());
}

/// Reply of a target to the pending access of `v`: a read of `master_status` finds `rx_ready`,
/// `tx_ready` and `nack` in bits 0, 1 and 2 of `value`, a read of `master_rxtx` gives
/// `value`, a write is carried out.
pub open spec fn device_reply(v: I2cTransactionView, value: u32) -> I2cReply {
    match v.pending() {
        I2cAction::ReadStatus => I2cReply::Status {
            rx_ready: value % 2 == 1,
            tx_ready: (value / 2) % 2 == 1,
            nack: (value / 4) % 2 == 1,
        },
        I2cAction::ReadData => I2cReply::Data(value),
        _ => I2cReply::Written,
    }
}

/// The transaction after `steps` register accesses against a target and core whose register
/// read at step `k` gives `values[k]`: they may keep the driver waiting for any time, and the
/// target may refuse any transfer.
pub open spec fn run_device(v: I2cTransactionView, values: Seq<u32>, steps: nat) -> I2cTransactionView
    decreases steps,
{
    if steps == 0 {
        v
    } else {
        let u = run_device(v, values, (steps - 1) as nat);
        u.next(device_reply(u, values[steps - 1]))
    }
}

/// The first `steps` register accesses of the transaction against such a target.
pub open spec fn accesses_device(v: I2cTransactionView, values: Seq<u32>, steps: nat) -> Seq<
    I2cAction,
>
    decreases steps,
{
    if steps == 0 {
        Seq::empty()
    } else {
        accesses_device(v, values, (steps - 1) as nat).push(
            run_device(v, values, (steps - 1) as nat).pending(),
        )
    }
}

/// The words read back for completed transfers in the first `steps` accesses: the value of each
/// read of `master_rxtx` made to receive a transfer's word (not those that drain the receive
/// buffer first).
pub open spec fn received_words(v: I2cTransactionView, values: Seq<u32>, steps: nat) -> Seq<u32>
    decreases steps,
{
    if steps == 0 {
        Seq::empty()
    } else {
        let prev = received_words(v, values, (steps - 1) as nat);
        if run_device(v, values, (steps - 1) as nat).phase is Receive {
            prev.push(values[steps - 1])
        } else {
            prev
        }
    }
}

/// The words written to `master_rxtx` by a sequence of accesses, in order.
pub open spec fn data_writes(acts: Seq<I2cAction>) -> Seq<u32>
    decreases acts.len(),
{
    if acts.len() == 0 {
        Seq::empty()
    } else {
        data_writes(acts.drop_last()) + match acts.last() {
            I2cAction::WriteData(w) => seq![w],
            _ => Seq::empty(),
        }
    }
}

/// The words of the planned transfers, in order.
pub open spec fn transfer_words(ts: Seq<I2cTransfer>) -> Seq<u32> {
    Seq::new(ts.len(), |i: int| ts[i].word)
}

proof fn lemma_stored_all_extend(
    buffers: Seq<Seq<u8>>,
    ts: Seq<I2cTransfer>,
    words: Seq<u32>,
    w: u32,
    k: nat,
)
    requires
        k <= words.len(),
    ensures
        stored_all(buffers, ts, words.push(w), k) == stored_all(buffers, ts, words, k),
    decreases k,
{
    if k > 0 {
        lemma_stored_all_extend(buffers, ts, words, w, (k - 1) as nat);
    }
}

/// Whatever the target and core answer, a transaction writes to `master_rxtx` the words of
/// its planned transfers, in order, one per transfer started; the read buffers hold exactly
/// what the words read back for the completed transfers put there; and it ends without error
/// only once every transfer is completed.
pub proof fn lemma_transaction_moves_words_in_order(
    v: I2cTransactionView,
    values: Seq<u32>,
    steps: nat,
)
    requires
        v.wf(),
        v.phase == I2cPhase::Start,
        v.position == 0,
        steps <= values.len(),
    ensures
        ({
            let acts = accesses_device(v, values, steps);
            let end = run_device(v, values, steps);
            let sent = data_writes(acts);
            let got = received_words(v, values, steps);
            &&& sent == transfer_words(v.transfers).take(sent.len() as int)
            &&& end.position <= sent.len() <= end.position + 1
            &&& got.len() == end.position
            &&& end.buffers == stored_all(v.buffers, v.transfers, got, end.position)
            &&& end.pending() == I2cAction::Done(Ok(())) ==> end.position == v.transfers.len()
                && sent.len() == v.transfers.len()
        }),
{
    lemma_transaction_device_invariant(v, values, steps);
}

/// `rx_ready` as a device that answers `value` to a read of `master_status` reports it.
pub open spec fn status_rx_ready(value: u32) -> bool {
    value % 2 == 1
}

/// `nack` as a device that answers `value` to a read of `master_status` reports it.
pub open spec fn status_nack(value: u32) -> bool {
    (value / 4) % 2 == 1
}

/// A word is written to `master_rxtx` before step `k`.
pub open spec fn word_sent_before(acts: Seq<I2cAction>, k: int) -> bool {
    exists|m: int| 0 <= m < k && #[trigger] acts[m] is WriteData
}

/// A received word is taken only from a finished, acknowledged transfer: against any core and
/// target, every read of `master_rxtx` after the first word has been sent comes directly after
/// a read of `master_status` with `nack` clear, which itself comes directly after a read of
/// `master_status` with `rx_ready` set.
pub proof fn lemma_words_read_only_when_ready_and_acknowledged(
    v: I2cTransactionView,
    values: Seq<u32>,
    steps: nat,
)
    requires
        v.wf(),
        v.phase == I2cPhase::Start,
        v.position == 0,
        steps <= values.len(),
    ensures
        ({
            let acts = accesses_device(v, values, steps);
            forall|k: int|
                0 <= k < acts.len() && #[trigger] acts[k] == I2cAction::ReadData
                    && word_sent_before(acts, k) ==> {
                    &&& k >= 2
                    &&& acts[k - 1] == I2cAction::ReadStatus
                    &&& !status_nack(values[k - 1])
                    &&& acts[k - 2] == I2cAction::ReadStatus
                    &&& status_rx_ready(values[k - 2])
                }
        }),
{
    lemma_ready_invariant(v, values, steps);
}

proof fn lemma_ready_invariant(v: I2cTransactionView, values: Seq<u32>, steps: nat)
    requires
        v.wf(),
        v.phase == I2cPhase::Start,
        v.position == 0,
        steps <= values.len(),
    ensures
        ({
            let acts = accesses_device(v, values, steps);
            let end = run_device(v, values, steps);
            &&& forall|k: int|
                0 <= k < acts.len() && #[trigger] acts[k] == I2cAction::ReadData
                    && word_sent_before(acts, k) ==> {
                    &&& k >= 2
                    &&& acts[k - 1] == I2cAction::ReadStatus
                    &&& !status_nack(values[k - 1])
                    &&& acts[k - 2] == I2cAction::ReadStatus
                    &&& status_rx_ready(values[k - 2])
                }
            &&& (end.phase is Start || end.phase is Flush || end.phase is Discard
                || end.phase is WaitTxReady || end.phase is Address) ==> !word_sent_before(
                acts,
                acts.len() as int,
            )
            &&& end.phase is CheckNack ==> acts.len() >= 1 && acts[acts.len() - 1]
                == I2cAction::ReadStatus && status_rx_ready(values[acts.len() - 1])
            &&& end.phase is Receive ==> acts.len() >= 2 && acts[acts.len() - 1]
                == I2cAction::ReadStatus && !status_nack(values[acts.len() - 1]) && acts[acts.len()
                - 2] == I2cAction::ReadStatus && status_rx_ready(values[acts.len() - 2])
        }),
    decreases steps,
{
    lemma_transaction_device_invariant(v, values, steps);
    if steps > 0 {
        let j = (steps - 1) as nat;
        lemma_ready_invariant(v, values, j);
        lemma_transaction_device_invariant(v, values, j);
        let u = run_device(v, values, j);
        let prev = accesses_device(v, values, j);
        let acts = accesses_device(v, values, steps);
        let end = run_device(v, values, steps);
        assert(acts == prev.push(u.pending()));
        assert(forall|q: int| 0 <= q < j ==> acts[q] == prev[q]);
        assert(acts[j as int] == u.pending());
        assert forall|k: int|
            0 <= k < acts.len() && #[trigger] acts[k] == I2cAction::ReadData && word_sent_before(
                acts,
                k,
            ) implies {
            &&& k >= 2
            &&& acts[k - 1] == I2cAction::ReadStatus
            &&& !status_nack(values[k - 1])
            &&& acts[k - 2] == I2cAction::ReadStatus
            &&& status_rx_ready(values[k - 2])
        } by {
            let m = choose|m: int| 0 <= m < k && #[trigger] acts[m] is WriteData;
            assert(prev[m] is WriteData || m == j);
            if k < j {
                assert(prev[k] == I2cAction::ReadData);
                assert(word_sent_before(prev, k));
            } else {
                assert(prev[m] is WriteData);
                assert(word_sent_before(prev, j as int));
                assert(u.phase is Receive);
            }
        }
        if end.phase is Start || end.phase is Flush || end.phase is Discard
            || end.phase is WaitTxReady || end.phase is Address {
            assert(u.phase is Start || u.phase is Flush || u.phase is Discard
                || u.phase is WaitTxReady);
            assert forall|m: int| 0 <= m < acts.len() implies !(#[trigger] acts[m] is WriteData) by {
                if m < j {
                    assert(!word_sent_before(prev, j as int));
                    assert(!(prev[m] is WriteData));
                }
            }
        }
    }
}

proof fn lemma_transaction_device_invariant(v: I2cTransactionView, values: Seq<u32>, steps: nat)
    requires
        v.wf(),
        v.phase == I2cPhase::Start,
        v.position == 0,
        steps <= values.len(),
    ensures
        ({
            let acts = accesses_device(v, values, steps);
            let end = run_device(v, values, steps);
            let sent = data_writes(acts);
            let got = received_words(v, values, steps);
            &&& acts.len() == steps
            &&& end.wf()
            &&& end.transfers == v.transfers
            &&& end.aborts == v.aborts
            &&& sent == transfer_words(v.transfers).take(sent.len() as int)
            &&& (end.phase is Start || end.phase is Flush || end.phase is Discard
                || end.phase is WaitTxReady || end.phase is Address || end.phase is Settings
                || end.phase is Send || end.phase is Aborted || end.phase
                == I2cPhase::Deactivate(Ok(())) || end.phase == I2cPhase::Finished(Ok(())))
                ==> sent.len() == end.position
            &&& (end.phase is WaitRxReady || end.phase is CheckNack || end.phase is Receive)
                ==> sent.len() == end.position + 1
            &&& end.position <= sent.len() <= end.position + 1
            &&& got.len() == end.position
            &&& end.buffers == stored_all(v.buffers, v.transfers, got, end.position)
            &&& (end.phase == I2cPhase::Deactivate(Ok(())) || end.phase == I2cPhase::Finished(
                Ok(()),
            )) ==> end.position == v.transfers.len()
        }),
    decreases steps,
{
    if steps > 0 {
        let j = (steps - 1) as nat;
        lemma_transaction_device_invariant(v, values, j);
        let u = run_device(v, values, j);
        let prev = accesses_device(v, values, j);
        let acts = accesses_device(v, values, steps);
        let end = run_device(v, values, steps);
        assert(acts.drop_last() == prev);
        assert(acts.last() == u.pending());
        let before = data_writes(prev);
        let words = transfer_words(v.transfers);
        if u.phase is Send {
            assert(data_writes(acts) == before + seq![u.current_transfer().word]);
            assert(words[u.position as int] == u.current_transfer().word);
            assert(data_writes(acts) =~= words.take(data_writes(acts).len() as int));
        } else {
            assert(data_writes(acts) == before + Seq::<u32>::empty());
            assert(before + Seq::<u32>::empty() =~= before);
        }
        let got_prev = received_words(v, values, j);
        if u.phase is Receive {
            lemma_stored_all_extend(v.buffers, v.transfers, got_prev, values[j as int], u.position);
            assert(received_words(v, values, steps) == got_prev.push(values[j as int]));
        }
    } else {
        assert(data_writes(accesses_device(v, values, 0)) =~= transfer_words(v.transfers).take(0));
    }
}

/// The bytes kept from the words read back for `k` transfers starting at `from`, side by side.
pub open spec fn received_chunks(ts: Seq<I2cTransfer>, words: Seq<u32>, from: int, k: nat) -> Seq<
    u8,
>
    decreases k,
{
    if k == 0 {
        Seq::empty()
    } else {
        received_chunks(ts, words, from, (k - 1) as nat) + be_bytes(
            words[from + k - 1],
            ts[from + k - 1].rx_count as nat,
        )
    }
}

proof fn lemma_op_transfers_index(ops: Seq<I2cOperation>, j: int)
    requires
        0 <= j < ops.len() <= usize::MAX,
    ensures
        forall|k: int|
            0 <= k < op_transfers(ops, j).len() ==> (#[trigger] op_transfers(ops, j)[k]).op == j,
{
}

proof fn lemma_transfers_upto_extend(ops: Seq<I2cOperation>, a: nat, b: nat)
    requires
        a <= b <= ops.len() <= usize::MAX,
    ensures
        transfers_upto(ops, a).len() <= transfers_upto(ops, b).len(),
        transfers_upto(ops, b).take(transfers_upto(ops, a).len() as int) == transfers_upto(ops, a),
        forall|m: int|
            transfers_upto(ops, a).len() <= m < transfers_upto(ops, b).len() ==> (
            #[trigger] transfers_upto(ops, b)[m]).op >= a,
        forall|m: int|
            0 <= m < transfers_upto(ops, a).len() ==> (#[trigger] transfers_upto(ops, a)[m]).op
                < a,
    decreases b,
{
    if b == 0 {
    } else if a == b {
        lemma_transfers_upto_extend(ops, (a - 1) as nat, (a - 1) as nat);
        let prev = transfers_upto(ops, (a - 1) as nat);
        lemma_op_transfers_index(ops, a - 1);
        assert forall|m: int| 0 <= m < transfers_upto(ops, a).len() implies (
        #[trigger] transfers_upto(ops, a)[m]).op < a by {
            if m >= prev.len() {
                assert(transfers_upto(ops, a)[m] == op_transfers(ops, a - 1)[m - prev.len()]);
            } else {
                assert(transfers_upto(ops, a)[m] == prev[m]);
            }
        }
        assert(transfers_upto(ops, b).take(transfers_upto(ops, a).len() as int) =~= transfers_upto(
            ops,
            a,
        ));
    } else {
        lemma_transfers_upto_extend(ops, a, (b - 1) as nat);
        let prev = transfers_upto(ops, (b - 1) as nat);
        lemma_op_transfers_index(ops, b - 1);
        let cur = transfers_upto(ops, b);
        assert(cur == prev + op_transfers(ops, b - 1));
        assert forall|m: int|
            transfers_upto(ops, a).len() <= m < cur.len() implies (#[trigger] cur[m]).op >= a by {
            if m >= prev.len() {
                assert(cur[m] == op_transfers(ops, b - 1)[m - prev.len()]);
            } else {
                assert(cur[m] == prev[m]);
            }
        }
        assert(cur.take(transfers_upto(ops, a).len() as int) =~= transfers_upto(ops, a));
    }
}

proof fn lemma_block_store(
    buffers: Seq<Seq<u8>>,
    ts: Seq<I2cTransfer>,
    words: Seq<u32>,
    i: int,
    s: int,
    c: nat,
    fill: nat,
    m: nat,
)
    requires
        0 <= i < buffers.len(),
        0 <= s,
        s + c <= ts.len(),
        m <= ts.len(),
        words.len() >= ts.len(),
        c > 0,
        forall|q: int| 0 <= q < ts.len() ==> transfer_fits_in(
            Seq::new(buffers.len(), |x: int| true),
            buffers,
            #[trigger] ts[q],
        ),
        forall|q: int| 0 <= q < ts.len() && (q < s || q >= s + c) ==> (#[trigger] ts[q]).op != i,
        forall|k: int| 0 <= k < c ==> (#[trigger] ts[s + k]).op == i && ts[s + k].rx_offset == 4 * k,
        forall|k: int| 0 <= k < c - 1 ==> (#[trigger] ts[s + k]).rx_count == 4,
        ts[s + c - 1].rx_offset + ts[s + c - 1].rx_count == fill,
        fill <= buffers[i].len(),
    ensures
        stored_all(buffers, ts, words, m).len() == buffers.len(),
        forall|x: int| 0 <= x < buffers.len() ==> (#[trigger] stored_all(buffers, ts, words, m)[x]).len()
            == buffers[x].len(),
        m <= s ==> stored_all(buffers, ts, words, m)[i] == buffers[i],
        s < m <= s + c ==> stored_all(buffers, ts, words, m)[i] == received_chunks(
            ts,
            words,
            s,
            (m - s) as nat,
        ) + buffers[i].skip(ts[m - 1].rx_offset + ts[m - 1].rx_count),
        s + c <= m ==> stored_all(buffers, ts, words, m)[i] == received_chunks(ts, words, s, c)
            + buffers[i].skip(fill as int),
    decreases m,
{
    if m > 0 {
        let j = (m - 1) as nat;
        lemma_block_store(buffers, ts, words, i, s, c, fill, j);
        let prev = stored_all(buffers, ts, words, j);
        let t = ts[j as int];
        assert(transfer_fits_in(Seq::new(buffers.len(), |x: int| true), buffers, t));
        let cur = stored_all(buffers, ts, words, m);
        assert(cur == store_received(prev, t, words[j as int]));
        if t.rx_count > 0 {
            assert(prev[t.op as int].len() == buffers[t.op as int].len());
            assert forall|x: int| 0 <= x < buffers.len() implies (#[trigger] cur[x]).len()
                == buffers[x].len() by {
                if x == t.op {
                    assert(cur[x] == splice(
                        prev[x],
                        t.rx_offset as int,
                        be_bytes(words[j as int], t.rx_count as nat),
                    ));
                }
            }
        }
        if s <= j < s + c {
            let k = j - s;
            assert(t == ts[s + k]);
            let chunk = be_bytes(words[j as int], t.rx_count as nat);
            let before = if j == s {
                Seq::<u8>::empty()
            } else {
                received_chunks(ts, words, s, k as nat)
            };
            lemma_received_chunks_len(ts, words, s, k as nat, c);
            if j > s {
                assert(ts[j - 1] == ts[s + (k - 1)]);
                assert(ts[j - 1].rx_offset + ts[j - 1].rx_count == 4 * k);
            }
            assert(received_chunks(ts, words, s, 0) =~= Seq::<u8>::empty());
            assert(prev[i] == before + buffers[i].skip(4 * k));
            assert(before.len() == 4 * k);
            if t.rx_count > 0 {
                assert(cur[i] == splice(prev[i], 4 * k, chunk));
                assert(cur[i] =~= received_chunks(ts, words, s, (k + 1) as nat) + buffers[i].skip(
                    t.rx_offset + t.rx_count,
                ));
            } else {
                assert(chunk =~= Seq::<u8>::empty());
                assert(cur[i] =~= received_chunks(ts, words, s, (k + 1) as nat) + buffers[i].skip(
                    t.rx_offset + t.rx_count,
                ));
            }
        } else {
            assert(t.op != i);
            if t.rx_count > 0 {
                assert(cur[i] == prev[i]);
            }
        }
    }
}

proof fn lemma_received_chunks_len(ts: Seq<I2cTransfer>, words: Seq<u32>, s: int, k: nat, c: nat)
    requires
        k < c,
        forall|q: int| 0 <= q < c - 1 ==> (#[trigger] ts[s + q]).rx_count == 4,
    ensures
        received_chunks(ts, words, s, k).len() == 4 * k,
    decreases k,
{
    if k > 0 {
        lemma_received_chunks_len(ts, words, s, (k - 1) as nat, c);
        assert(ts[s + (k - 1)].rx_count == 4);
    }
}

/// Once every planned transfer has been answered with `words`, a read's buffer starts with the
/// bytes kept from the words read back for it, side by side, the rest of the buffer untouched.
pub proof fn lemma_read_receives_words(ops: Seq<I2cOperation>, words: Seq<u32>, i: int)
    requires
        ops.len() <= usize::MAX,
        transaction_is_supported(ops),
        0 <= i < performed_count(ops),
        ops[i] is Read,
        words.len() >= planned_transfers(ops).len(),
    ensures
        ({
            let plan = planned_transfers(ops);
            let start = transfers_upto(ops, i as nat).len();
            let n = op_buffer(ops[i]).len();
            stored_all(op_buffers(ops), plan, words, plan.len())[i] == received_chunks(
                plan,
                words,
                start as int,
                op_transfers(ops, i).len(),
            ) + op_buffer(ops[i]).skip(moved_len(n, last_write_len(ops, i)) as int)
        }),
{
    let plan = planned_transfers(ops);
    let p = performed_count(ops);
    lemma_first_oversized_from_bounds(ops, 0);
    lemma_transfers_upto_extend(ops, i as nat, (i + 1) as nat);
    lemma_transfers_upto_extend(ops, (i + 1) as nat, p);
    lemma_transfers_upto_extend(ops, i as nat, p);
    lemma_op_transfers_index(ops, i);
    lemma_read_fills_buffer(ops, i);
    lemma_planned_transfers_fit(ops);
    let s = transfers_upto(ops, i as nat).len() as int;
    let block = op_transfers(ops, i);
    let c = block.len();
    let after = transfers_upto(ops, (i + 1) as nat);
    assert(after == transfers_upto(ops, i as nat) + block);
    assert(after.len() == s + c);
    assert forall|k: int| 0 <= k < c implies #[trigger] plan[s + k] == block[k] by {
        assert(plan.take(after.len() as int)[s + k] == after[s + k]);
    }
    let buffers = op_buffers(ops);
    let n = op_buffer(ops[i]).len();
    let fill = moved_len(n, last_write_len(ops, i));
    assert(buffers[i] == op_buffer(ops[i]));
    assert forall|q: int| 0 <= q < plan.len() implies transfer_fits_in(
        Seq::new(buffers.len(), |x: int| true),
        buffers,
        #[trigger] plan[q],
    ) by {
        assert(transfer_fits(ops, plan[q]));
    }
    assert forall|q: int| 0 <= q < plan.len() && (q < s || q >= s + c) implies (
    #[trigger] plan[q]).op != i by {
        if q < s {
            assert(plan.take(s)[q] == transfers_upto(ops, i as nat)[q]);
        } else {
            assert(plan[q].op >= i + 1);
        }
    }
    assert forall|k: int| 0 <= k < c - 1 implies (#[trigger] plan[s + k]).rx_count == 4 by {
        assert(plan[s + k] == block[k]);
    }
    assert forall|k: int| 0 <= k < c implies (#[trigger] plan[s + k]).op == i && plan[s
        + k].rx_offset == 4 * k by {
        assert(plan[s + k] == block[k]);
    }
    assert(plan[s + (c - 1)] == block[c - 1]);
    assert(s + c - 1 == s + (c - 1));
    lemma_block_store(buffers, plan, words, i, s, c, fill, plan.len());
}

/// One I2C transaction on a litei2c master.
///
/// A transaction asks only for register accesses: it produces no progress or diagnostic
/// messages (such as a note per operation, the buffer lengths, or a report of a refused
/// transfer); the outcome is told by [`I2cAction::Done`], or by [`I2cAction::Abort`] when the
/// driver gives up.
pub struct I2cTransaction {
    address: u8,
    ops: Vec<I2cOperation>,
    transfers: Vec<I2cTransfer>,
    aborts: bool,
    current: usize,
    phase: I2cPhase,
}

impl View for I2cTransaction {
    type V = I2cTransactionView;

    closed spec fn view(&self) -> I2cTransactionView {
        I2cTransactionView {
            address: self.address,
            kinds: op_kinds(self.ops@),
            buffers: op_buffers(self.ops@),
            transfers: self.transfers@,
            aborts: self.aborts,
            position: self.current as nat,
            phase: self.phase,
        }
    }
}

impl I2cTransaction {
    /// Every transaction is internally consistent.
    #[verifier::type_invariant]
    spec fn consistent(self) -> bool {
        self@.wf()
    }

    /// Starts a transaction with the target at `address`. A transaction without operations is
    /// over at once and touches no register.
    pub fn new(address: u8, ops: Vec<I2cOperation>) -> (tr: Self)
        ensures
            tr@.wf(),
            tr@ == (I2cTransactionView {
                address,
                kinds: op_kinds(ops@),
                buffers: op_buffers(ops@),
                transfers: transaction_transfers(ops@),
                aborts: transaction_aborts(ops@),
                position: 0,
                phase: if ops@.len() == 0 {
                    I2cPhase::Finished(Ok(()))
                } else {
                    I2cPhase::Start
                },
            }),
    {
        let (transfers, aborts) = plan_transfers(&ops);
        let count: usize = ops.len();
        proof {
            lemma_transaction_transfers_fit(ops@);
            assert forall|i: int| 0 <= i < transfers@.len() implies transfer_fits_in(
                op_kinds(ops@),
                op_buffers(ops@),
                #[trigger] transfers@[i],
            ) by {
                assert(transfer_fits(ops@, transaction_transfers(ops@)[i]));
            }
        }
        let phase = if ops.len() == 0 {
            I2cPhase::Finished(Ok(()))
        } else {
            I2cPhase::Start
        };
        I2cTransaction { address, ops, transfers, aborts, current: 0, phase }
    }

    /// The register access the transaction asks for next.
    pub fn action(&self) -> (a: I2cAction)
        ensures
            self@.wf(),
            a == self@.pending(),
    {
        proof {
            use_type_invariant(self);
        }
        match self.phase {
            I2cPhase::Start => I2cAction::SetActive(true),
            I2cPhase::Flush => I2cAction::ReadStatus,
            I2cPhase::Discard => I2cAction::ReadData,
            I2cPhase::WaitTxReady => I2cAction::ReadStatus,
            I2cPhase::Address => I2cAction::WriteAddress(self.address as u32),
            I2cPhase::Settings => {
                let t = self.transfers[self.current];
                I2cAction::WriteSettings { len_tx: t.len_tx, len_rx: t.len_rx }
            },
            I2cPhase::Send => I2cAction::WriteData(self.transfers[self.current].word),
            I2cPhase::WaitRxReady => I2cAction::ReadStatus,
            I2cPhase::CheckNack => I2cAction::ReadStatus,
            I2cPhase::Receive => I2cAction::ReadData,
            I2cPhase::Deactivate(_) => I2cAction::SetActive(false),
            I2cPhase::Finished(r) => I2cAction::Done(r),
            I2cPhase::Aborted => I2cAction::Abort,
        }
    }

    fn next_transfer_phase(&self, next: usize) -> (p: I2cPhase)
        ensures
            p == self@.phase_for_transfer(next as nat),
    {
        if next < self.transfers.len() {
            I2cPhase::Settings
        } else if self.aborts {
            I2cPhase::Aborted
        } else {
            I2cPhase::Deactivate(Ok(()))
        }
    }

    /// Moves the transaction on with what the pending register access gave.
    pub fn advance(&mut self, reply: I2cReply)
        ensures
            old(self)@.wf(),
            final(self)@.wf(),
            final(self)@ == old(self)@.next(reply),
    {
        proof {
            use_type_invariant(&*self);
        }
        match (self.phase, reply) {
            (I2cPhase::Start, I2cReply::Written) => {
                self.phase = I2cPhase::Flush;
            },
            (I2cPhase::Flush, I2cReply::Status { rx_ready, .. }) => {
                self.phase = if rx_ready {
                    I2cPhase::Discard
                } else {
                    I2cPhase::WaitTxReady
                };
            },
            (I2cPhase::Discard, I2cReply::Data(_)) => {
                self.phase = I2cPhase::Flush;
            },
            (I2cPhase::WaitTxReady, I2cReply::Status { tx_ready, .. }) => {
                if tx_ready {
                    self.phase = I2cPhase::Address;
                }
            },
            (I2cPhase::Address, I2cReply::Written) => {
                self.phase = self.next_transfer_phase(self.current);
            },
            (I2cPhase::Settings, I2cReply::Written) => {
                self.phase = I2cPhase::Send;
            },
            (I2cPhase::Send, I2cReply::Written) => {
                self.phase = I2cPhase::WaitRxReady;
            },
            (I2cPhase::WaitRxReady, I2cReply::Status { rx_ready, .. }) => {
                if rx_ready {
                    self.phase = I2cPhase::CheckNack;
                }
            },
            (I2cPhase::CheckNack, I2cReply::Status { nack, .. }) => {
                self.phase = if nack {
                    I2cPhase::Deactivate(Err(LiteI2CError::NACK))
                } else {
                    I2cPhase::Receive
                };
            },
            (I2cPhase::Receive, I2cReply::Data(word)) => {
                self.receive(word);
            },
            (I2cPhase::Deactivate(r), I2cReply::Written) => {
                self.phase = I2cPhase::Finished(r);
            },
            _ => {},
        }
    }

    fn receive(&mut self, word: u32)
        requires
            old(self)@.wf(),
            old(self)@.phase is Receive,
        ensures
            final(self)@.wf(),
            final(self)@ == old(self)@.next(I2cReply::Data(word)),
    {
        let ghost pre = self@;
        let t = self.transfers[self.current];
        let planned_count: usize = self.transfers.len();
        proof {
            assert(transfer_fits_in(pre.kinds, pre.buffers, self.transfers@[self.current as int]));
        }
        let phase = self.next_transfer_phase(self.current + 1);
        let mut whole = I2cTransaction::new(0, Vec::new());
        std::mem::swap(self, &mut whole);
        let I2cTransaction { address, mut ops, transfers, aborts, current, phase: _ } = whole;
        if t.rx_count > 0 {
            let mut buf = match &ops[t.op] {
                I2cOperation::Read(b) => b.clone(),
                I2cOperation::Write(b) => b.clone(),
            };
            assert(buf@ =~= pre.buffers[t.op as int]);
            unpack_word(&mut buf, t.rx_offset, t.rx_count, word);
            ops.set(t.op, I2cOperation::Read(buf));
        }
        proof {
            assert(op_kinds(ops@) =~= pre.kinds);
            assert(op_buffers(ops@) =~= pre.buffers_receiving(word));
            assert forall|i: int| 0 <= i < transfers@.len() implies transfer_fits_in(
                op_kinds(ops@),
                op_buffers(ops@),
                #[trigger] transfers@[i],
            ) by {
                assert(transfer_fits_in(pre.kinds, pre.buffers, pre.transfers[i]));
            }
        }
        *self = I2cTransaction { address, ops, transfers, aborts, current: current + 1, phase };
    }

    /// The operations, read buffers holding what has been received.
    pub fn into_operations(self) -> (ops: Vec<I2cOperation>)
        ensures
            op_kinds(ops@) == self@.kinds,
            op_buffers(ops@) == self@.buffers,
    {
        self.ops
    }
}
} // verus!
