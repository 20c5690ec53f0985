//! A stand-in for the chain's randomness that replays recorded answers.

use crate::quant::ChainEpoch;
use vstd::prelude::*;

verus! {

/// Which source of randomness a request draws on.
#[derive(Clone, Copy, Debug, PartialEq, Eq, Structural)]
pub enum RandomnessKind {
    Beacon,
    Chain,
}

/// A request for randomness.
#[derive(Debug)]
pub struct RandomnessRule {
    pub kind: RandomnessKind,
    pub dst: i64,
    pub epoch: ChainEpoch,
    pub entropy: Vec<u8>,
}

/// A recorded request with the answer that it got.
#[derive(Debug)]
pub struct RandomnessMatch {
    pub on: RandomnessRule,
    pub ret: Vec<u8>,
}

/// A recording of requests and answers.
pub type Randomness = Vec<RandomnessMatch>;

/// Whether the recorded entry answers the request.
pub open spec fn answers(
    m: RandomnessMatch,
    kind: RandomnessKind,
    dst: i64,
    epoch: ChainEpoch,
    entropy: Seq<u8>,
) -> bool {
    m.on.kind == kind && m.on.dst == dst && m.on.epoch == epoch && m.on.entropy@ == entropy
}

/// Two recorded entries that say the same.
pub open spec fn same_entry(a: RandomnessMatch, b: RandomnessMatch) -> bool {
    a.on.kind == b.on.kind && a.on.dst == b.on.dst && a.on.epoch == b.on.epoch && a.on.entropy@
        == b.on.entropy@ && a.ret@ == b.ret@
}

/// The position of the first of the first `n` entries that answers the
/// request, or `n` if none of them does.
pub open spec fn first_answer(
    recorded: Seq<RandomnessMatch>,
    n: int,
    kind: RandomnessKind,
    dst: i64,
    epoch: ChainEpoch,
    entropy: Seq<u8>,
) -> int
    decreases n,
{
    if n <= 0 {
        0
    } else {
        let at = first_answer(recorded, n - 1, kind, dst, epoch, entropy);
        if at < n - 1 || !answers(recorded[n - 1], kind, dst, epoch, entropy) {
            if at < n - 1 {
                at
            } else {
                n
            }
        } else {
            n - 1
        }
    }
}

/// A copy of the bytes.
fn copy_bytes(src: &[u8]) -> (out: Vec<u8>)
    ensures
        out@ == src@,
{
    let mut out: Vec<u8> = Vec::new();
    let mut i: usize = 0;
    while i < src.len()
        invariant
            i <= src.len(),
            out@ == src@.subrange(0, i as int),
        decreases src.len() - i,
    {
        out.push(src[i]);
        assert(out@ =~= src@.subrange(0, i + 1));
        i += 1;
    }
    assert(out@ =~= src@);
    out
}

/// Whether the two hold the same bytes.
fn same_bytes(a: &[u8], b: &[u8]) -> (r: bool)
    ensures
        r == (a@ == b@),
{
    if a.len() != b.len() {
        return false;
    }
    let mut i: usize = 0;
    while i < a.len()
        invariant
            i <= a.len(),
            a.len() == b.len(),
            a@.subrange(0, i as int) == b@.subrange(0, i as int),
        decreases a.len() - i,
    {
        if a[i] != b[i] {
            return false;
        }
        assert(a@.subrange(0, i + 1) =~= a@.subrange(0, i as int).push(a@[i as int]));
        assert(b@.subrange(0, i + 1) =~= b@.subrange(0, i as int).push(b@[i as int]));
        i += 1;
    }
    assert(a@ =~= a@.subrange(0, a@.len() as int));
    assert(b@ =~= b@.subrange(0, b@.len() as int));
    true
}

/// The externs stub for testing. Answers randomness requests from a
/// recording.
pub struct TestExterns {
    rand: Vec<RandomnessMatch>,
}

impl TestExterns {
    /// The recording that is replayed.
    pub closed spec fn recorded(&self) -> Seq<RandomnessMatch> {
        self.rand@
    }

    /// What the recording answers to a request: the answer of the first
    /// entry recorded for it, if there is one.
    pub open spec fn replayed(
        &self,
        kind: RandomnessKind,
        dst: i64,
        epoch: ChainEpoch,
        entropy: Seq<u8>,
    ) -> Option<Seq<u8>> {
        let n = self.recorded().len() as int;
        let at = first_answer(self.recorded(), n, kind, dst, epoch, entropy);
        if at < n {
            Some(self.recorded()[at].ret@)
        } else {
            None
        }
    }

    /// Creates a new TestExterns from randomness contained in a vector.
    pub fn new(r: &Randomness) -> (s: TestExterns)
        ensures
            s.recorded().len() == r@.len(),
            forall|i: int| 0 <= i < r@.len() ==> same_entry(#[trigger] s.recorded()[i], r@[i]),
    {
        let mut rand: Vec<RandomnessMatch> = Vec::new();
        let mut i: usize = 0;
        while i < r.len()
            invariant
                i <= r.len(),
                rand@.len() == i,
                forall|j: int| 0 <= j < i ==> same_entry(#[trigger] rand@[j], r@[j]),
            decreases r.len() - i,
        {
            let m = &r[i];
            rand.push(
                RandomnessMatch {
                    on: RandomnessRule {
                        kind: m.on.kind,
                        dst: m.on.dst,
                        epoch: m.on.epoch,
                        entropy: copy_bytes(m.on.entropy.as_slice()),
                    },
                    ret: copy_bytes(m.ret.as_slice()),
                },
            );
            i += 1;
        }
        TestExterns { rand }
    }

    /// The recorded answer to a request, `None` where none was recorded.
    pub fn replay(&self, kind: RandomnessKind, dst: i64, epoch: ChainEpoch, entropy: &[u8]) -> (r:
        Option<Vec<u8>>)
        ensures
            r is Some == self.replayed(kind, dst, epoch, entropy@) is Some,
            r matches Some(bytes) ==> self.replayed(kind, dst, epoch, entropy@) == Some(bytes@),
    {
        let mut i: usize = 0;
        while i < self.rand.len()
            invariant
                i <= self.rand.len(),
                first_answer(self.recorded(), i as int, kind, dst, epoch, entropy@) == i,
            decreases self.rand.len() - i,
        {
            let m = &self.rand[i];
            if m.on.kind == kind && m.on.dst == dst && m.on.epoch == epoch && same_bytes(
                m.on.entropy.as_slice(),
                entropy,
            ) {
                proof {
                    lemma_first_answer_stays(
                        self.recorded(),
                        i as int + 1,
                        self.rand.len() as int,
                        kind,
                        dst,
                        epoch,
                        entropy@,
                    );
                }
                return Some(copy_bytes(m.ret.as_slice()));
            }
            i += 1;
        }
        None
    }

    pub fn get_chain_randomness(&self, pers: i64, round: ChainEpoch, entropy: &[u8]) -> (r: Option<
        Vec<u8>,
    >)
        ensures
            r is Some == self.replayed(RandomnessKind::Chain, pers, round, entropy@) is Some,
            r matches Some(bytes) ==> self.replayed(RandomnessKind::Chain, pers, round, entropy@)
                == Some(bytes@),
    {
        self.replay(RandomnessKind::Chain, pers, round, entropy)
    }

    pub fn get_chain_randomness_looking_forward(
        &self,
        pers: i64,
        round: ChainEpoch,
        entropy: &[u8],
    ) -> (r: Option<Vec<u8>>)
        ensures
            r is Some == self.replayed(RandomnessKind::Chain, pers, round, entropy@) is Some,
            r matches Some(bytes) ==> self.replayed(RandomnessKind::Chain, pers, round, entropy@)
                == Some(bytes@),
    {
        self.replay(RandomnessKind::Chain, pers, round, entropy)
    }

    pub fn get_beacon_randomness(&self, pers: i64, round: ChainEpoch, entropy: &[u8]) -> (r: Option<
        Vec<u8>,
    >)
        ensures
            r is Some == self.replayed(RandomnessKind::Beacon, pers, round, entropy@) is Some,
            r matches Some(bytes) ==> self.replayed(RandomnessKind::Beacon, pers, round, entropy@)
                == Some(bytes@),
    {
        self.replay(RandomnessKind::Beacon, pers, round, entropy)
    }

    pub fn get_beacon_randomness_looking_forward(
        &self,
        pers: i64,
        round: ChainEpoch,
        entropy: &[u8],
    ) -> (r: Option<Vec<u8>>)
        ensures
            r is Some == self.replayed(RandomnessKind::Beacon, pers, round, entropy@) is Some,
            r matches Some(bytes) ==> self.replayed(RandomnessKind::Beacon, pers, round, entropy@)
                == Some(bytes@),
    {
        self.replay(RandomnessKind::Beacon, pers, round, entropy)
    }
}

/// Once an entry among the first `m` answers, looking at more entries finds
/// the same one.
proof fn lemma_first_answer_stays(
    recorded: Seq<RandomnessMatch>,
    m: int,
    n: int,
    kind: RandomnessKind,
    dst: i64,
    epoch: ChainEpoch,
    entropy: Seq<u8>,
)
    requires
        0 <= m <= n,
        first_answer(recorded, m, kind, dst, epoch, entropy) < m,
    ensures
        first_answer(recorded, n, kind, dst, epoch, entropy) == first_answer(
            recorded,
            m,
            kind,
            dst,
            epoch,
            entropy,
        ),
    decreases n - m,
{
    if m < n {
        lemma_first_answer_stays(recorded, m, n - 1, kind, dst, epoch, entropy);
    }
}

} // verus!
