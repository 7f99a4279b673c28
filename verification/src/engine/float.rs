//! Double-precision numbers by their bits, and operations on them that the caller carries out.
use crate::bytes;
use crate::bytes::put_be;
use crate::mvcc::key_map::KeyMap;
use vstd::prelude::*;

verus! {

/// Half of all bit patterns: those from here on have the sign bit set.
pub const SIGN: u64 = 0x8000_0000_0000_0000;

/// The bits below the exponent.
pub const MANTISSAS: u64 = 0x10_0000_0000_0000;

/// Whether bits stand for a finite number: the exponent is not the largest.
pub open spec fn is_finite(bits: u64) -> bool {
    (bits / MANTISSAS) % 2048 != 2047
}

/// Whether bits stand for no number: the largest exponent and a mantissa.
pub open spec fn is_nan(bits: u64) -> bool {
    !is_finite(bits) && bits % MANTISSAS != 0
}

/// The place of a number among all numbers; both zeros have the same.
pub open spec fn rank(bits: u64) -> int {
    if bits < SIGN {
        bits as int
    } else {
        SIGN - bits
    }
}

/// The place of a bit pattern in the total order, in which the negative zero comes before the
/// positive one.
pub open spec fn total_rank(bits: u64) -> int {
    if bits < SIGN {
        bits as int
    } else {
        SIGN - bits - 1
    }
}

/// The number with the other sign.
pub open spec fn negated(bits: u64) -> u64 {
    if bits < SIGN {
        (bits + SIGN) as u64
    } else {
        (bits - SIGN) as u64
    }
}

/// Whether two bit patterns stand for equal numbers.
pub open spec fn equal(left: u64, right: u64) -> bool {
    !is_nan(left) && !is_nan(right) && rank(left) == rank(right)
}

/// Negating twice changes nothing, and negating turns the order round.
pub proof fn law_negation(left: u64, right: u64)
    ensures
        negated(negated(left)) == left,
        rank(negated(left)) == -rank(left),
        is_finite(negated(left)) == is_finite(left),
        rank(left) < rank(right) ==> rank(negated(right)) < rank(negated(left)),
{
    assert(is_finite(negated(left)) == is_finite(left)) by {
        let other = negated(left);
        if left < SIGN {
            assert(other == left + SIGN);
            assert((left + SIGN) / MANTISSAS as int == left / MANTISSAS + 2048) by (nonlinear_arith)
                requires
                    SIGN == 2048 * MANTISSAS,
                    MANTISSAS > 0,
            ;
        } else {
            assert(other == left - SIGN);
            assert((left - SIGN) / MANTISSAS as int == left / MANTISSAS - 2048) by (nonlinear_arith)
                requires
                    SIGN == 2048 * MANTISSAS,
                    MANTISSAS > 0,
            ;
        }
    }
}

pub fn finite(bits: u64) -> (yes: bool)
    ensures
        yes == is_finite(bits),
{
    (bits / MANTISSAS) % 2048 != 2047
}

pub fn not_a_number(bits: u64) -> (yes: bool)
    ensures
        yes == is_nan(bits),
{
    (bits / MANTISSAS) % 2048 == 2047 && bits % MANTISSAS != 0
}

pub fn negate(bits: u64) -> (other: u64)
    ensures
        other == negated(bits),
{
    if bits < SIGN {
        bits + SIGN
    } else {
        bits - SIGN
    }
}

/// The place of a number, as a machine integer.
pub fn rank_of(bits: u64) -> (place: i128)
    ensures
        place == rank(bits),
{
    if bits < SIGN {
        bits as i128
    } else {
        SIGN as i128 - bits as i128
    }
}

/// The place of a bit pattern in the total order, as a machine integer.
pub fn total_rank_of(bits: u64) -> (place: i128)
    ensures
        place == total_rank(bits),
{
    if bits < SIGN {
        bits as i128
    } else {
        SIGN as i128 - bits as i128 - 1
    }
}

/// An operation whose result the caller computes.
#[derive(Clone, Copy, Debug, PartialEq, Eq, Structural)]
pub enum FloatOperation {
    /// The number nearest to an integer, which stands in the left operand as its bits.
    FromInteger,
    Add,
    Subtract,
    Multiply,
    Divide,
    Modulo,
}

/// An operation on two numbers.
#[derive(Clone, Copy, Debug, PartialEq, Eq, Structural)]
pub struct FloatRequest {
    pub operation: FloatOperation,
    pub left: u64,
    pub right: u64,
}

/// The bits of an integer, as the left operand of its conversion.
pub open spec fn integer_bits(value: i64) -> u64 {
    if value < 0 {
        (value + 0x1_0000_0000_0000_0000) as u64
    } else {
        value as u64
    }
}

/// The conversion of an integer.
pub open spec fn conversion(value: i64) -> FloatRequest {
    FloatRequest { operation: FloatOperation::FromInteger, left: integer_bits(value), right: 0 }
}

/// The request that converts an integer.
pub fn conversion_of(value: i64) -> (request: FloatRequest)
    ensures
        request == conversion(value),
{
    let left: u64 = if value < 0 {
        (value as i128 + 0x1_0000_0000_0000_0000) as u64
    } else {
        value as u64
    };
    FloatRequest { operation: FloatOperation::FromInteger, left, right: 0 }
}

spec fn operation_tag(operation: FloatOperation) -> u8 {
    match operation {
        FloatOperation::FromInteger => 0,
        FloatOperation::Add => 1,
        FloatOperation::Subtract => 2,
        FloatOperation::Multiply => 3,
        FloatOperation::Divide => 4,
        FloatOperation::Modulo => 5,
    }
}

spec fn request_key(request: FloatRequest) -> Seq<u8> {
    seq![operation_tag(request.operation)] + bytes::be_bytes(request.left as nat, 8)
        + bytes::be_bytes(request.right as nat, 8)
}

proof fn lemma_request_key_injective(a: FloatRequest, b: FloatRequest)
    requires
        request_key(a) == request_key(b),
    ensures
        a == b,
{
    bytes::lemma_byte_limits();
    bytes::lemma_be_round_trip(a.left as nat, 8);
    bytes::lemma_be_round_trip(a.right as nat, 8);
    bytes::lemma_be_round_trip(b.left as nat, 8);
    bytes::lemma_be_round_trip(b.right as nat, 8);
    let x = request_key(a);
    let y = request_key(b);
    assert(x[0] == operation_tag(a.operation) && y[0] == operation_tag(b.operation));
    assert(x.subrange(1, 9) =~= bytes::be_bytes(a.left as nat, 8));
    assert(y.subrange(1, 9) =~= bytes::be_bytes(b.left as nat, 8));
    assert(x.subrange(9, 17) =~= bytes::be_bytes(a.right as nat, 8));
    assert(y.subrange(9, 17) =~= bytes::be_bytes(b.right as nat, 8));
}

fn key_of(request: FloatRequest) -> (found: Vec<u8>)
    ensures
        found@ == request_key(request),
{
    let tag: u8 = match request.operation {
        FloatOperation::FromInteger => 0,
        FloatOperation::Add => 1,
        FloatOperation::Subtract => 2,
        FloatOperation::Multiply => 3,
        FloatOperation::Divide => 4,
        FloatOperation::Modulo => 5,
    };
    let mut out: Vec<u8> = Vec::new();
    out.push(tag);
    put_be(&mut out, request.left, 8);
    put_be(&mut out, request.right, 8);
    assert(out@ =~= request_key(request));
    out
}

/// Results of float operations that the caller has computed so far.
pub struct FloatTable {
    answers: KeyMap<u64>,
}

impl View for FloatTable {
    type V = Map<FloatRequest, u64>;

    closed spec fn view(&self) -> Map<FloatRequest, u64> {
        Map::new(
            |r: FloatRequest| self.answers@.contains_key(request_key(r)),
            |r: FloatRequest| self.answers@[request_key(r)],
        )
    }
}

impl FloatTable {
    pub closed spec fn wf(&self) -> bool {
        self.answers.wf()
    }

    /// A table without results.
    pub fn new() -> (table: FloatTable)
        ensures
            table.wf(),
            table@ == Map::<FloatRequest, u64>::empty(),
    {
        let table = FloatTable { answers: KeyMap::new() };
        assert(table@ =~= Map::<FloatRequest, u64>::empty());
        table
    }

    /// Adds a result.
    pub fn answer(&mut self, request: FloatRequest, result: u64)
        requires
            old(self).wf(),
        ensures
            final(self).wf(),
            final(self)@ == old(self)@.insert(request, result),
    {
        let ghost before = self@;
        self.answers.insert(key_of(request), result);
        proof {
            assert forall|r: FloatRequest|
                request_key(r) == request_key(request) implies r == request by {
                lemma_request_key_injective(r, request);
            }
            assert(self@ =~= before.insert(request, result));
        }
    }

    /// The result of an operation, where there is one.
    pub fn result(&self, request: FloatRequest) -> (result: Option<u64>)
        requires
            self.wf(),
        ensures
            match result {
                Some(bits) => self@.contains_key(request) && self@[request] == bits,
                None => !self@.contains_key(request),
            },
    {
        let wanted = key_of(request);
        match self.answers.get(wanted.as_slice()) {
            Some(bits) => Some(*bits),
            None => None,
        }
    }
}

} // verus!
