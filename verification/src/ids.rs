//! Unique order ids, from a snowflake generator.

use vstd::prelude::*;
use rustflake::Snowflake;

verus! {

#[verifier::external_type_specification]
#[verifier::external_body]
pub struct ExSnowflake(rustflake::Snowflake);

/// Epoch of the order ids, in milliseconds since the Unix epoch.
pub const ID_EPOCH: i64 = 1_564_790_400_000;

/// Worker number written into the order ids.
pub const ID_WORKER: i64 = 2;

/// Datacenter number written into the order ids.
pub const ID_DATACENTER: i64 = 1;

/// The id `id` carries the worker number `worker` (bits 17 to 21) and the
/// datacenter number `datacenter` (bits 12 to 16).
pub open spec fn stamped_by(id: i64, worker: int, datacenter: int) -> bool {
    (id & 0x3ff000i64) == worker * 0x20000 + datacenter * 0x1000
}

/// The id `id` carries this library's worker and datacenter numbers.
pub open spec fn is_order_id(id: i64) -> bool {
    stamped_by(id, ID_WORKER as int, ID_DATACENTER as int)
}

/// The largest clock reading (milliseconds since `ID_EPOCH`) whose id
/// holds it whole in bits 22 to 63: below 2^41 in size.
pub const CLOCK_LIMIT: i64 = 0x200_0000_0000;

/// The id made from the clock reading `clock`, the worker and datacenter
/// numbers and the sequence number `seq`, when the reading is within
/// `CLOCK_LIMIT`: the reading in bits 22 up, the worker in bits 17 to 21,
/// the datacenter in bits 12 to 16 and the sequence in bits 0 to 11.
pub open spec fn id_from(clock: int, worker: int, datacenter: int, seq: int) -> int {
    clock * 0x40_0000 + worker * 0x2_0000 + datacenter * 0x1000 + seq
}

/// The sequence number that follows a call whose previous clock reading
/// and sequence number were `prev_clock` and `prev_seq`, when the call read
/// the clock as `clock`: the next number (modulo 4096) within the same
/// millisecond, else 0.
pub open spec fn next_seq(prev_clock: int, prev_seq: int, clock: int) -> int {
    if clock == prev_clock {
        (prev_seq + 1) % 4096
    } else {
        0
    }
}

/// A snowflake generator of order ids, built only here, with `ID_EPOCH`,
/// `ID_WORKER` and `ID_DATACENTER`. The ghost fields record what it was
/// built with, and the clock reading and the sequence number of its latest
/// id (0 and 0 before the first).
pub struct IdGenerator {
    flake: Snowflake,
    epoch: Ghost<i64>,
    worker: Ghost<i64>,
    datacenter: Ghost<i64>,
    last: Ghost<i64>,
    seq: Ghost<i64>,
}

impl IdGenerator {
    #[verifier::type_invariant]
    spec fn built_here(self) -> bool {
        &&& self.epoch@ == ID_EPOCH
        &&& self.worker@ == ID_WORKER
        &&& self.datacenter@ == ID_DATACENTER
        &&& 0 <= self.seq@ < 4096
    }

    /// The clock reading of the latest id, in milliseconds since `ID_EPOCH`
    /// (0 before the first id).
    pub closed spec fn clock(self) -> int {
        self.last@ as int
    }

    /// The sequence number of the latest id (0 before the first id).
    pub closed spec fn sequence(self) -> int {
        self.seq@ as int
    }
}

/// Calls `rustflake::Snowflake::new`, which only stores the epoch, the
/// worker id and the datacenter id it is given, with a sequence number of
/// 0 and a last clock reading of 0. The ghost fields of the result record
/// these five values.
#[verifier::external_body]
fn snowflake_new(epoch: i64, worker_id: i64, datacenter_id: i64) -> (g: IdGenerator)
    requires
        epoch == ID_EPOCH,
        worker_id == ID_WORKER,
        datacenter_id == ID_DATACENTER,
    ensures
        g.epoch@ == epoch,
        g.worker@ == worker_id,
        g.datacenter@ == datacenter_id,
        g.last@ == 0,
        g.seq@ == 0,
{
    IdGenerator {
        flake: Snowflake::new(epoch, worker_id, datacenter_id),
        epoch: Ghost(epoch),
        worker: Ghost(worker_id),
        datacenter: Ghost(datacenter_id),
        last: Ghost(0),
        seq: Ghost(0),
    }
}

/// Calls `rustflake::Snowflake::generate`. It reads the clock (milliseconds
/// since the epoch). If the reading equals the last one, the sequence
/// number goes up by one modulo 4096, and where it wraps to 0 the clock is
/// read once more; otherwise the sequence number is 0. It stores the
/// reading as the last one and returns
/// `(reading << 22) | (worker << 17) | (datacenter << 12) | sequence`.
/// The ghost fields `last` and `seq` follow the stored reading and the
/// sequence number. So bits 12 to 21 of the id hold the worker and the
/// datacenter numbers, for numbers below 32, and bits 0 to 11 the sequence
/// number; bits 22 up hold the reading where it is below 2^41 in size.
/// Which reading the clock gives is left unsaid: it depends on the machine.
/// The call panics if the system clock reads a time before 1970 (in
/// `chrono::Utc::now`); that rests on the machine and is not stated. With
/// an epoch of at most 2^62 in size, the subtraction from the time cannot
/// overflow.
#[verifier::external_body]
fn snowflake_generate(g: &mut IdGenerator) -> (id: i64)
    requires
        -0x4000_0000_0000_0000 <= old(g).epoch@ <= 0x4000_0000_0000_0000,
        0 <= old(g).worker@ < 32,
        0 <= old(g).datacenter@ < 32,
        0 <= old(g).seq@ < 4096,
    ensures
        final(g).epoch@ == old(g).epoch@,
        final(g).worker@ == old(g).worker@,
        final(g).datacenter@ == old(g).datacenter@,
        final(g).seq@ == next_seq(old(g).last@ as int, old(g).seq@ as int, final(g).last@ as int),
        stamped_by(id, old(g).worker@ as int, old(g).datacenter@ as int),
        id & 0xfffi64 == final(g).seq@,
        -CLOCK_LIMIT <= final(g).last@ < CLOCK_LIMIT ==> id == id_from(
            final(g).last@ as int,
            old(g).worker@ as int,
            old(g).datacenter@ as int,
            final(g).seq@ as int,
        ),
{
    let id = g.flake.generate();
    id
}

/// The generator held in `state`, or a new one for `None`: with clock
/// reading 0 and sequence number 0.
pub open spec fn prev_clock(state: Option<IdGenerator>) -> int {
    match state {
        Some(g) => g.clock(),
        None => 0,
    }
}

/// The sequence number of the generator held in `state`, or 0 for `None`.
pub open spec fn prev_sequence(state: Option<IdGenerator>) -> int {
    match state {
        Some(g) => g.sequence(),
        None => 0,
    }
}

/// `id` is the id that a generator, found as `prev` (`None`: not yet
/// created) and left as `next`, gives next: it carries the worker and
/// datacenter numbers; its sequence number follows that of the previous id
/// of `prev` as `next_seq` says, given the clock reading that `next`
/// records; and it is made of that reading, the two numbers and the
/// sequence number, where the reading is within `CLOCK_LIMIT`.
pub open spec fn next_id(prev: Option<IdGenerator>, next: Option<IdGenerator>, id: i64) -> bool {
    &&& next.is_some()
    &&& is_order_id(id)
    &&& next.unwrap().sequence() == next_seq(prev_clock(prev), prev_sequence(prev), next.unwrap().clock())
    &&& id & 0xfffi64 == next.unwrap().sequence()
    &&& -CLOCK_LIMIT <= next.unwrap().clock() < CLOCK_LIMIT ==> id == id_from(
        next.unwrap().clock(),
        ID_WORKER as int,
        ID_DATACENTER as int,
        next.unwrap().sequence(),
    )
}

/// Two ids that a generator gives one after the other differ, where both
/// clock readings are within `CLOCK_LIMIT`: within one millisecond the
/// sequence number moves on, and a new reading starts it at 0 under a
/// different time part.
pub proof fn law_consecutive_ids_differ(
    g0: Option<IdGenerator>,
    g1: Option<IdGenerator>,
    g2: Option<IdGenerator>,
    id1: i64,
    id2: i64,
)
    requires
        next_id(g0, g1, id1),
        next_id(g1, g2, id2),
        -CLOCK_LIMIT <= g1.unwrap().clock() < CLOCK_LIMIT,
        -CLOCK_LIMIT <= g2.unwrap().clock() < CLOCK_LIMIT,
    ensures
        id1 != id2,
{
    let a = g1.unwrap();
    let b = g2.unwrap();
    assert(prev_clock(g1) == a.clock());
    assert(prev_sequence(g1) == a.sequence());
    if a.clock() != b.clock() {
        let d = b.clock() - a.clock();
        assert(id2 - id1 == d * 0x40_0000 + b.sequence() - a.sequence());
        if d > 0 {
            assert(d * 0x40_0000 >= 0x40_0000) by (nonlinear_arith)
                requires
                    d > 0,
            ;
        } else {
            assert(d * 0x40_0000 <= -0x40_0000) by (nonlinear_arith)
                requires
                    d < 0,
            ;
        }
    }
}

/// A fresh order id from the generator held in `state`, which is created
/// (with `ID_EPOCH`, `ID_WORKER` and `ID_DATACENTER`) on first use and kept
/// there. The clock reading of the new id is left unsaid (it depends on the
/// machine); given it, the sequence number follows that of the generator's
/// previous id, and the id is made of the reading, the worker and
/// datacenter numbers and the sequence number.
pub fn gen_id(state: &mut Option<IdGenerator>) -> (id: i64)
    ensures
        next_id(*old(state), *final(state), id),
{
    let mut g = match state.take() {
        Some(g) => g,
        None => snowflake_new(ID_EPOCH, ID_WORKER, ID_DATACENTER),
    };
    proof {
        use_type_invariant(&g);
    }
    let id = snowflake_generate(&mut g);
    *state = Some(g);
    id
}

} // verus!
