use crate::error::CryptoError;
use crate::field::{
    add_mod, inverse_value, lemma_sub_zero, mul_mod, sub_mod, FieldElement, FieldError,
};
use crate::merkle::{
    hash_eq, hash_leaf, leaf_hashes, merkle_root, path_root, path_view, proof_path, sha3_256, values_view,
    MerkleProof, MerkleTree,
};
use crate::reed_muller::{all_in_field, nested_view, ReedMullerCode};
use rand::Rng;
use vstd::arithmetic::power2::*;
use vstd::prelude::*;

verus! {

/// `gen_range(0..bound)` on `rand`'s thread-local generator: some index
/// below `bound`. The range must not be empty.
#[verifier::external_body]
fn random_index(bound: usize) -> (r: usize)
    requires
        bound > 0,
    ensures
        r < bound,
{
    rand::thread_rng().gen_range(0..bound)
}

/// `gen::<u128>()` on `rand`'s thread-local generator: any value.
#[verifier::external_body]
fn random_u128() -> (r: u128) {
    rand::thread_rng().gen()
}

/// The `count` low bytes of `v`, lowest first.
pub open spec fn le_bytes(v: nat, count: nat) -> Seq<u8>
    decreases count,
{
    if count == 0 {
        Seq::empty()
    } else {
        seq![(v % 256) as u8] + le_bytes(v / 256, (count - 1) as nat)
    }
}

/// The bytes an element is hashed by: its residue in sixteen bytes.
pub open spec fn element_bytes(e: FieldElement) -> Seq<u8> {
    le_bytes(e.val(), 16)
}

/// The bytes of each element of a vector.
pub open spec fn elements_bytes(v: Seq<FieldElement>) -> Seq<Seq<u8>> {
    Seq::new(v.len(), |i: int| element_bytes(v[i]))
}

/// The value at `r` of the affine function through `(t0, v0)` and
/// `(t1, v1)`.
pub open spec fn fold_spec(v0: nat, v1: nat, t0: nat, t1: nat, r: nat, p: nat) -> nat {
    add_mod(
        mul_mod(
            mul_mod(sub_mod(v1, v0, p), inverse_value(sub_mod(t1, t0, p), p), p),
            sub_mod(r, t0, p),
            p,
        ),
        v0,
        p,
    )
}

/// A leaf hash, the path above it and the position it was made for
/// authenticate the residue `value` under `root`.
pub open spec fn authenticates(root: Seq<u8>, value: nat, proof: MerkleProof, index: int) -> bool {
    &&& proof.index == index
    &&& proof.leaf@ == sha3_256(le_bytes(value, 16))
    &&& path_root(proof.leaf@, path_view(proof.proof@)) == root
}

/// The two domain points of pair `q` differ.
pub open spec fn pair_distinct(t: Seq<FieldElement>, q: int) -> bool {
    t[2 * q].val() != t[2 * q + 1].val()
}

/// Round `i` of a code family with its domain points: a valid code over
/// the common modulus, at least one variable, one domain point per
/// codeword position.
pub open spec fn round_ready(codes: Seq<ReedMullerCode>, ts: Seq<Vec<FieldElement>>, i: int) -> bool {
    &&& codes[i].wf()
    &&& codes[i].modulus == codes[0].modulus
    &&& codes[i].variables >= 1
    &&& ts[i]@.len() == codes[i].n
    &&& all_in_field(ts[i]@, codes[0].modulus as nat)
}

/// Round `i + 1` has fewer variables than round `i` and takes what round
/// `i` folds to.
pub open spec fn rounds_linked(codes: Seq<ReedMullerCode>, i: int) -> bool {
    codes[i + 1].variables < codes[i].variables && codes[i + 1].k == codes[i].n / 2
}

/// A code family with matching domain points.
pub open spec fn family_ok(codes: Seq<ReedMullerCode>, ts: Seq<Vec<FieldElement>>) -> bool {
    &&& codes.len() >= 1
    &&& ts.len() == codes.len()
    &&& forall|i: int| 0 <= i < codes.len() ==> #[trigger] round_ready(codes, ts, i)
    &&& forall|i: int| 0 <= i < codes.len() - 1 ==> #[trigger] rounds_linked(codes, i)
}

/// What one round records for one pair of its codeword.
pub struct RoundEntry {
    pub proof: MerkleProof,
    pub folded: FieldElement,
}

/// What one round records: the root over its codeword and one entry per
/// pair.
pub struct RoundProofs {
    pub root: [u8; 32],
    pub entries: Vec<RoundEntry>,
}

/// The sixteen bytes an element is hashed by.
pub fn element_to_bytes(e: &FieldElement) -> (r: Vec<u8>)
    ensures
        r@ == element_bytes(*e),
{
    let mut buf: Vec<u8> = Vec::new();
    let mut rest: u128 = e.value();
    let mut b: usize = 0;
    assert(buf@ + le_bytes(rest as nat, 16) =~= le_bytes(e.val(), 16));
    while b < 16
        invariant
            b <= 16,
            buf@ + le_bytes(rest as nat, (16 - b) as nat) == le_bytes(e.val(), 16),
        decreases 16 - b,
    {
        let byte: u8 = (rest % 256) as u8;
        proof {
            let tail = le_bytes(rest as nat / 256, (15 - b) as nat);
            assert(le_bytes(rest as nat, (16 - b) as nat) == seq![byte] + tail);
            assert(buf@.push(byte) + tail =~= buf@ + (seq![byte] + tail));
        }
        buf.push(byte);
        rest = rest / 256;
        b = b + 1;
    }
    assert(buf@ + Seq::<u8>::empty() =~= buf@);
    buf
}

/// Whether `e` is a valid element modulo `p`.
pub fn in_field(e: &FieldElement, p: u128) -> (r: bool)
    ensures
        r == (e.wf() && e.modu() == p),
{
    e.modulus() == p && p > 1 && e.value() < p
}

/// Whether every element of `v` is a valid element modulo `p`.
pub fn vector_in_field(v: &Vec<FieldElement>, p: u128) -> (r: bool)
    ensures
        r == all_in_field(v@, p as nat),
{
    let mut i: usize = 0;
    while i < v.len()
        invariant
            i <= v.len(),
            forall|j: int| 0 <= j < i ==> (#[trigger] v@[j]).wf() && v@[j].modu() == p,
        decreases v.len() - i,
    {
        if !in_field(&v[i], p) {
            return false;
        }
        i = i + 1;
    }
    true
}

fn copy_elements(v: &Vec<FieldElement>) -> (r: Vec<FieldElement>)
    ensures
        r@ == v@,
{
    let mut r: Vec<FieldElement> = Vec::new();
    let mut i: usize = 0;
    while i < v.len()
        invariant
            i <= v.len(),
            r@ == v@.subrange(0, i as int),
        decreases v.len() - i,
    {
        r.push(v[i]);
        i = i + 1;
        assert(r@ =~= v@.subrange(0, i as int));
    }
    assert(r@ =~= v@);
    r
}

/// Collapses two evaluations into the value, at the challenge `r`, of the
/// affine function they determine. Where the two domain points coincide
/// there is no such function, and the division by their difference
/// fails.
pub fn fold_pair(
    v0: FieldElement,
    v1: FieldElement,
    t0: FieldElement,
    t1: FieldElement,
    r: FieldElement,
) -> (res: Result<FieldElement, FieldError>)
    requires
        v0.wf(),
        v1.wf(),
        t0.wf(),
        t1.wf(),
        r.wf(),
        v1.modu() == v0.modu(),
        t0.modu() == v0.modu(),
        t1.modu() == v0.modu(),
        r.modu() == v0.modu(),
    ensures
        match res {
            Ok(f) => t0.val() != t1.val() && f.wf() && f.modu() == v0.modu() && f.val()
                == fold_spec(v0.val(), v1.val(), t0.val(), t1.val(), r.val(), v0.modu()),
            Err(FieldError::DivisionByZero) => t0.val() == t1.val(),
            Err(_) => false,
        },
{
    let numerator = v1.sub(v0);
    let denominator = t1.sub(t0);
    proof {
        lemma_sub_zero(t1.val(), t0.val(), v0.modu());
    }
    match denominator.inverse() {
        Ok(inv) => {
            let slope = numerator.mul(inv);
            Ok(slope.mul(r.sub(t0)).add(v0))
        },
        Err(_) => Err(FieldError::DivisionByZero),
    }
}

/// Whether a family of valid codes and its domain points fit together:
/// one modulus, at least one variable per round and fewer from round to
/// round, each round's input as long as what the round before folds to,
/// and one domain point per codeword position.
pub fn check_family(codes: &Vec<ReedMullerCode>, ts: &Vec<Vec<FieldElement>>) -> (ok: bool)
    requires
        forall|i: int| 0 <= i < codes@.len() ==> (#[trigger] codes@[i]).wf(),
    ensures
        ok == family_ok(codes@, ts@),
{
    if codes.len() == 0 || ts.len() != codes.len() {
        return false;
    }
    let p: u128 = codes[0].modulus;
    let mut i: usize = 0;
    while i < codes.len()
        invariant
            codes@.len() >= 1,
            ts@.len() == codes@.len(),
            p == codes@[0].modulus,
            i <= codes@.len(),
            forall|a: int| 0 <= a < codes@.len() ==> (#[trigger] codes@[a]).wf(),
            forall|a: int| 0 <= a < i ==> #[trigger] round_ready(codes@, ts@, a),
            forall|a: int| 0 <= a < i - 1 ==> #[trigger] rounds_linked(codes@, a),
        decreases codes@.len() - i,
    {
        let code = &codes[i];
        let ready = code.modulus == p && code.variables >= 1 && ts[i].len() == code.n
            && vector_in_field(&ts[i], p);
        if !ready {
            assert(!round_ready(codes@, ts@, i as int));
            return false;
        }
        if i > 0 {
            let before = &codes[i - 1];
            if !(code.variables < before.variables && code.k == before.n / 2) {
                assert(!rounds_linked(codes@, i - 1));
                return false;
            }
        }
        i = i + 1;
    }
    true
}

/// A fold-based commitment over a family of Reed-Muller codes.
pub struct BasefoldProtocol {
    pub code_family: Vec<ReedMullerCode>,
    pub t_vectors: Vec<Vec<FieldElement>>,
    pub commitment_randomness: Vec<FieldElement>,
}

impl BasefoldProtocol {
    /// The folding challenges, one per round.
    pub open spec fn challenges(self) -> Seq<FieldElement> {
        self.commitment_randomness@
    }

    /// The modulus all rounds share.
    pub open spec fn modulus(self) -> nat {
        self.code_family@[0].modulus as nat
    }

    /// Number of rounds.
    pub open spec fn rounds(self) -> int {
        self.code_family@.len() as int
    }

    /// The family is consistent and there is one challenge per round.
    pub open spec fn wf(self) -> bool {
        &&& family_ok(self.code_family@, self.t_vectors@)
        &&& self.challenges().len() == self.code_family@.len()
        &&& all_in_field(self.challenges(), self.modulus())
    }

    /// Pair `q` of round `i`, with codeword values `c0` and `c1`, is
    /// authenticated by the round's record, has two distinct domain points
    /// and folds to `out`.
    pub open spec fn pair_ok(
        self,
        i: int,
        c0: nat,
        c1: nat,
        out: FieldElement,
        proofs: RoundProofs,
        q: int,
    ) -> bool {
        &&& authenticates(proofs.root@, c0, proofs.entries@[q].proof, 2 * q)
        &&& pair_distinct(self.t_vectors@[i]@, q)
        &&& proofs.entries@[q].folded == out
        &&& out.val() == fold_spec(
            c0,
            c1,
            self.t_vectors@[i]@[2 * q].val(),
            self.t_vectors@[i]@[2 * q + 1].val(),
            self.challenges()[i].val(),
            self.modulus(),
        )
    }

    /// Pair `q` of round `i` checks out, the round's codeword being the
    /// encoding of `input`.
    pub open spec fn round_ok_at(
        self,
        i: int,
        input: Seq<FieldElement>,
        output: Seq<FieldElement>,
        proofs: RoundProofs,
        q: int,
    ) -> bool {
        self.pair_ok(
            i,
            self.code_family@[i].column_sum(input, 2 * q, self.code_family@[i].k as nat),
            self.code_family@[i].column_sum(input, 2 * q + 1, self.code_family@[i].k as nat),
            output[q],
            proofs,
            q,
        )
    }

    /// Round `i` has an input, an output and a record of the right sizes
    /// over the field.
    pub open spec fn round_shape_at(
        self,
        i: int,
        input: Seq<FieldElement>,
        output: Seq<FieldElement>,
        proofs: RoundProofs,
    ) -> bool {
        &&& input.len() == self.code_family@[i].k
        &&& all_in_field(input, self.modulus())
        &&& output.len() == self.code_family@[i].n / 2
        &&& all_in_field(output, self.modulus())
        &&& proofs.entries@.len() == self.code_family@[i].n / 2
    }

    /// Round `i` of a transcript has the right shape.
    pub open spec fn round_shape_ok(
        self,
        oracles: Seq<Seq<FieldElement>>,
        table: Seq<RoundProofs>,
        i: int,
    ) -> bool {
        self.round_shape_at(i, oracles[i], oracles[i + 1], table[i])
    }

    /// Pair `q` of round `i` of a transcript checks out.
    pub open spec fn round_ok(
        self,
        oracles: Seq<Seq<FieldElement>>,
        table: Seq<RoundProofs>,
        i: int,
        q: int,
    ) -> bool {
        self.round_ok_at(i, oracles[i], oracles[i + 1], table[i], q)
    }

    /// The transcript has one oracle more than there are rounds, one
    /// record per round, and every round has the right shape.
    pub open spec fn shape_ok(
        self,
        oracles: Seq<Seq<FieldElement>>,
        table: Seq<RoundProofs>,
    ) -> bool {
        &&& oracles.len() == self.rounds() + 1
        &&& table.len() == self.rounds()
        &&& forall|i: int|
            0 <= i < self.rounds() ==> #[trigger] self.round_shape_ok(oracles, table, i)
    }

    /// The walk from round `i` down to round zero passes, starting at
    /// index `cur` and halving the index at each round.
    pub open spec fn path_ok(
        self,
        oracles: Seq<Seq<FieldElement>>,
        table: Seq<RoundProofs>,
        i: int,
        cur: int,
    ) -> bool
        decreases i + 1,
    {
        if i < 0 {
            true
        } else {
            &&& cur / 2 < self.code_family@[i].n / 2
            &&& self.round_ok(oracles, table, i, cur / 2)
            &&& self.path_ok(oracles, table, i - 1, cur / 2)
        }
    }

    /// One consistency check, started at index `mu` of the last round,
    /// passes.
    pub open spec fn check_ok(
        self,
        oracles: Seq<Seq<FieldElement>>,
        table: Seq<RoundProofs>,
        mu: int,
    ) -> bool {
        self.shape_ok(oracles, table) && self.path_ok(oracles, table, self.rounds() - 1, mu)
    }

    /// The bytes of the codeword of round `i`, the encoding of `input`.
    pub open spec fn codeword_bytes(self, i: int, input: Seq<FieldElement>) -> Seq<Seq<u8>> {
        Seq::new(
            self.code_family@[i].n as nat,
            |j: int|
                le_bytes(
                    self.code_family@[i].column_sum(input, j, self.code_family@[i].k as nat),
                    16,
                ),
        )
    }

    /// The record of round `i` holds the root over the round's codeword
    /// and, for each pair, the authentication path of its first position.
    pub open spec fn round_recorded(
        self,
        i: int,
        input: Seq<FieldElement>,
        proofs: RoundProofs,
    ) -> bool {
        &&& proofs.root@ == merkle_root(leaf_hashes(self.codeword_bytes(i, input)))
        &&& forall|q: int|
            0 <= q < proofs.entries@.len() ==> path_view(
                (#[trigger] proofs.entries@[q]).proof.proof@,
            ) == proof_path(leaf_hashes(self.codeword_bytes(i, input)), 2 * q)
    }

    /// Every round's record is the one over that round's codeword.
    pub open spec fn recorded(
        self,
        oracles: Seq<Seq<FieldElement>>,
        table: Seq<RoundProofs>,
    ) -> bool {
        forall|i: int|
            0 <= i < self.rounds() ==> #[trigger] self.round_recorded(i, oracles[i], table[i])
    }

    /// In every round the two domain points of every pair differ.
    pub open spec fn domains_distinct(self) -> bool {
        forall|i: int, q: int|
            0 <= i < self.rounds() && 0 <= q < self.code_family@[i].n / 2 ==> #[trigger] pair_distinct(
                self.t_vectors@[i]@,
                q,
            )
    }

    /// Every check started at one of `indices` passes.
    pub open spec fn all_pass(
        self,
        oracles: Seq<Seq<FieldElement>>,
        table: Seq<RoundProofs>,
        indices: Seq<usize>,
    ) -> bool {
        forall|i: int|
            0 <= i < indices.len() ==> self.check_ok(oracles, table, #[trigger] indices[i] as int)
    }

    /// Every index lies within the last round's codeword.
    pub open spec fn in_last_round(self, indices: Seq<usize>) -> bool {
        forall|i: int|
            0 <= i < indices.len() ==> #[trigger] indices[i] < self.code_family@[self.rounds()
                - 1].n
    }

    /// The verdict over two runs of checks is the conjunction of the two
    /// verdicts: more checks never turn a rejection into an acceptance.
    pub proof fn lemma_checks_conjoin(
        self,
        oracles: Seq<Seq<FieldElement>>,
        table: Seq<RoundProofs>,
        first: Seq<usize>,
        more: Seq<usize>,
    )
        ensures
            self.all_pass(oracles, table, first + more) == (self.all_pass(oracles, table, first)
                && self.all_pass(oracles, table, more)),
    {
        let both = first + more;
        if self.all_pass(oracles, table, both) {
            assert forall|i: int| 0 <= i < first.len() implies self.check_ok(
                oracles,
                table,
                #[trigger] first[i] as int,
            ) by {
                assert(both[i] == first[i]);
            }
            assert forall|i: int| 0 <= i < more.len() implies self.check_ok(
                oracles,
                table,
                #[trigger] more[i] as int,
            ) by {
                assert(both[first.len() + i] == more[i]);
            }
        }
        if self.all_pass(oracles, table, first) && self.all_pass(oracles, table, more) {
            assert forall|i: int| 0 <= i < both.len() implies self.check_ok(
                oracles,
                table,
                #[trigger] both[i] as int,
            ) by {
                if i < first.len() {
                    assert(both[i] == first[i]);
                } else {
                    assert(both[i] == more[i - first.len()]);
                }
            }
        }
    }

    /// Every pair of every round checks out.
    pub open spec fn consistent(
        self,
        oracles: Seq<Seq<FieldElement>>,
        table: Seq<RoundProofs>,
    ) -> bool {
        &&& self.shape_ok(oracles, table)
        &&& forall|i: int, q: int|
            0 <= i < self.rounds() && 0 <= q < self.code_family@[i].n / 2
                ==> #[trigger] self.round_ok(oracles, table, i, q)
    }

    /// In a consistent transcript the walk passes from every round and
    /// every index of that round's codeword.
    pub proof fn lemma_consistent_path(
        self,
        oracles: Seq<Seq<FieldElement>>,
        table: Seq<RoundProofs>,
        i: int,
        cur: int,
    )
        requires
            self.wf(),
            self.consistent(oracles, table),
            -1 <= i < self.rounds(),
            0 <= cur,
            i >= 0 ==> cur < self.code_family@[i].n,
        ensures
            self.path_ok(oracles, table, i, cur),
        decreases i + 1,
    {
        if i >= 0 {
            let codes = self.code_family@;
            assert(round_ready(codes, self.t_vectors@, i));
            lemma_pow2_unfold(codes[i].variables as nat);
            if i > 0 {
                assert(rounds_linked(codes, i - 1));
                assert(round_ready(codes, self.t_vectors@, i - 1));
                lemma_pow2_strictly_increases(
                    codes[i].variables as nat,
                    codes[i - 1].variables as nat,
                );
            }
            self.lemma_consistent_path(oracles, table, i - 1, cur / 2);
        }
    }

    /// Completeness: a consistent transcript passes the check from every
    /// index of the last round's codeword.
    pub proof fn lemma_consistent_accepts(
        self,
        oracles: Seq<Seq<FieldElement>>,
        table: Seq<RoundProofs>,
        mu: int,
    )
        requires
            self.wf(),
            self.consistent(oracles, table),
            0 <= mu < self.code_family@[self.rounds() - 1].n,
        ensures
            self.check_ok(oracles, table, mu),
    {
        self.lemma_consistent_path(oracles, table, self.rounds() - 1, mu);
    }

    /// The protocol over a family, with the challenge of each round taken
    /// from `draws`, reduced by the modulus.
    pub fn with_draws(
        code_family: Vec<ReedMullerCode>,
        t_vectors: Vec<Vec<FieldElement>>,
        draws: &Vec<u128>,
    ) -> (r: Self)
        requires
            family_ok(code_family@, t_vectors@),
            draws@.len() == code_family@.len(),
        ensures
            r.wf(),
            r.code_family == code_family,
            r.t_vectors == t_vectors,
            forall|i: int|
                0 <= i < draws@.len() ==> (#[trigger] r.challenges()[i]).val() == draws@[i]
                    % code_family@[0].modulus,
    {
        assert(round_ready(code_family@, t_vectors@, 0));
        let p: u128 = code_family[0].modulus;
        let mut challenges: Vec<FieldElement> = Vec::new();
        let mut i: usize = 0;
        while i < draws.len()
            invariant
                1 < p,
                i <= draws.len(),
                challenges@.len() == i,
                all_in_field(challenges@, p as nat),
                forall|j: int| 0 <= j < i ==> (#[trigger] challenges@[j]).val() == draws@[j] % p,
            decreases draws.len() - i,
        {
            challenges.push(FieldElement::new(draws[i] % p, p).unwrap());
            i = i + 1;
        }
        BasefoldProtocol { code_family, t_vectors, commitment_randomness: challenges }
    }

    /// The protocol over a family, with one freshly drawn challenge per
    /// round.
    pub fn new(code_family: Vec<ReedMullerCode>, t_vectors: Vec<Vec<FieldElement>>) -> (r: Self)
        requires
            family_ok(code_family@, t_vectors@),
        ensures
            r.wf(),
            r.code_family == code_family,
            r.t_vectors == t_vectors,
    {
        let mut draws: Vec<u128> = Vec::new();
        let mut i: usize = 0;
        while i < code_family.len()
            invariant
                i <= code_family.len(),
                draws@.len() == i,
            decreases code_family.len() - i,
        {
            draws.push(random_u128());
            i = i + 1;
        }
        Self::with_draws(code_family, t_vectors, &draws)
    }

    /// The protocol over a family of valid codes, with freshly drawn
    /// challenges, or the reason the family does not fit together.
    pub fn try_new(code_family: Vec<ReedMullerCode>, t_vectors: Vec<Vec<FieldElement>>) -> (r:
        Result<Self, CryptoError>)
        requires
            forall|i: int| 0 <= i < code_family@.len() ==> (#[trigger] code_family@[i]).wf(),
        ensures
            match r {
                Ok(protocol) => family_ok(code_family@, t_vectors@) && protocol.wf()
                    && protocol.code_family == code_family && protocol.t_vectors == t_vectors,
                Err(CryptoError::InvalidParameters(_)) => !family_ok(code_family@, t_vectors@),
                Err(_) => false,
            },
    {
        if !check_family(&code_family, &t_vectors) {
            return Err(
                CryptoError::InvalidParameters(
                    "code family and domain points do not fit together".to_owned(),
                ),
            );
        }
        Ok(Self::new(code_family, t_vectors))
    }

    /// The challenge of round `i`.
    pub fn challenge(&self, i: usize) -> (r: FieldElement)
        requires
            i < self.challenges().len(),
        ensures
            r == self.challenges()[i as int],
    {
        self.commitment_randomness[i]
    }

    /// The tree over the hashes of the elements' bytes.
    pub fn build_merkle_tree(&self, values: &Vec<FieldElement>) -> (t: MerkleTree)
        ensures
            t.wf(),
            t.leaves() == leaf_hashes(elements_bytes(values@)),
    {
        let mut bytes: Vec<Vec<u8>> = Vec::new();
        let mut i: usize = 0;
        while i < values.len()
            invariant
                i <= values.len(),
                bytes@.len() == i,
                forall|j: int| 0 <= j < i ==> (#[trigger] bytes@[j])@ == element_bytes(values@[j]),
            decreases values.len() - i,
        {
            bytes.push(element_to_bytes(&values[i]));
            i = i + 1;
        }
        assert(values_view(bytes@) =~= elements_bytes(values@));
        MerkleTree::new(&bytes)
    }

    /// The authentication path of position `index`.
    pub fn generate_merkle_proof(&self, tree: &MerkleTree, index: usize) -> (r: Result<
        MerkleProof,
        CryptoError,
    >)
        requires
            tree.wf(),
        ensures
            match r {
                Ok(p) => index < tree.leaves().len() && p.index == index && p.leaf@
                    == tree.leaves()[index as int] && path_view(p.proof@) == proof_path(
                    tree.leaves(),
                    index as int,
                ) && path_root(p.leaf@, path_view(p.proof@)) == merkle_root(tree.leaves()),
                Err(CryptoError::InvalidParameters(_)) => index >= tree.leaves().len(),
                Err(_) => false,
            },
    {
        tree.generate_proof(index)
    }

    /// Whether `proof` was made for position `index`, starts at the hash
    /// of `value` and leads to `root`.
    pub fn verify_merkle_proof(
        &self,
        root: &[u8; 32],
        value: &FieldElement,
        proof: &MerkleProof,
        index: usize,
    ) -> (ok: bool)
        ensures
            ok == authenticates(root@, value.val(), *proof, index as int),
    {
        if proof.index != index {
            return false;
        }
        let leaf = hash_leaf(&element_to_bytes(value));
        if !hash_eq(&proof.leaf, &leaf) {
            return false;
        }
        proof.verify(*root)
    }

    /// Whether the entry of the next oracle at pair `q` is the fold of the
    /// pair's two codeword values.
    pub fn verify_fold_at_point(
        &self,
        pi_i: &Vec<FieldElement>,
        pi_i_plus1: &Vec<FieldElement>,
        t_i: &Vec<FieldElement>,
        r: FieldElement,
        q: usize,
    ) -> (ok: bool)
        requires
            r.wf(),
            all_in_field(pi_i@, r.modu()),
            all_in_field(pi_i_plus1@, r.modu()),
            all_in_field(t_i@, r.modu()),
            t_i@.len() == pi_i@.len(),
            2 * q + 1 < pi_i@.len(),
            q < pi_i_plus1@.len(),
        ensures
            ok == (t_i@[2 * q].val() != t_i@[2 * q + 1].val() && pi_i_plus1@[q as int].val()
                == fold_spec(
                pi_i@[2 * q].val(),
                pi_i@[2 * q + 1].val(),
                t_i@[2 * q].val(),
                t_i@[2 * q + 1].val(),
                r.val(),
                r.modu(),
            )),
    {
        let n: usize = pi_i.len();
        assert(2 * q + 1 < n);
        let j: usize = 2 * q;
        match fold_pair(pi_i[j], pi_i[j + 1], t_i[j], t_i[j + 1], r) {
            Ok(expected) => {
                proof {
                    if expected.val() == pi_i_plus1@[q as int].val() {
                        FieldElement::lemma_same(expected, pi_i_plus1@[q as int]);
                    }
                }
                pi_i_plus1[q] == expected
            },
            Err(_) => false,
        }
    }

    /// Folds the codeword `v` of round `i` and records, for each pair, the
    /// authentication path of its first position and the folded value.
    /// Fails with the division by zero of the first pair whose two domain
    /// points coincide.
    pub fn fold_with_merkle(&self, i: usize, v: &Vec<FieldElement>) -> (res: Result<
        (Vec<FieldElement>, RoundProofs),
        CryptoError,
    >)
        requires
            self.wf(),
            i < self.rounds(),
            v@.len() == self.code_family@[i as int].n,
            all_in_field(v@, self.modulus()),
        ensures
            match res {
                Ok(r) => {
                    &&& r.0@.len() == v@.len() / 2
                    &&& all_in_field(r.0@, self.modulus())
                    &&& r.1.entries@.len() == v@.len() / 2
                    &&& r.1.root@ == merkle_root(leaf_hashes(elements_bytes(v@)))
                    &&& forall|q: int|
                        0 <= q < v@.len() / 2 ==> #[trigger] pair_distinct(
                            self.t_vectors@[i as int]@,
                            q,
                        )
                    &&& forall|q: int|
                        0 <= q < v@.len() / 2 ==> #[trigger] self.pair_ok(
                            i as int,
                            v@[2 * q].val(),
                            v@[2 * q + 1].val(),
                            r.0@[q],
                            r.1,
                            q,
                        )
                    &&& forall|q: int|
                        0 <= q < v@.len() / 2 ==> path_view(
                            (#[trigger] r.1.entries@[q]).proof.proof@,
                        ) == proof_path(leaf_hashes(elements_bytes(v@)), 2 * q)
                },
                Err(CryptoError::FieldError(e)) => e == FieldError::DivisionByZero && exists|
                    q: int,
                |
                    0 <= q < v@.len() / 2 && !#[trigger] pair_distinct(
                        self.t_vectors@[i as int]@,
                        q,
                    ),
                Err(_) => false,
            },
    {
        let n: usize = v.len();
        let half: usize = n / 2;
        let tree = self.build_merkle_tree(v);
        proof {
            assert(round_ready(self.code_family@, self.t_vectors@, i as int));
            lemma_pow2_pos(self.code_family@[i as int].variables as nat);
        }
        let root = tree.root();
        let t = &self.t_vectors[i];
        let challenge = self.commitment_randomness[i];
        let mut folded: Vec<FieldElement> = Vec::new();
        let mut entries: Vec<RoundEntry> = Vec::new();
        let mut q: usize = 0;
        while q < half
            invariant
                self.wf(),
                i < self.rounds(),
                n == v@.len(),
                half == n / 2,
                v@.len() == self.code_family@[i as int].n,
                all_in_field(v@, self.modulus()),
                round_ready(self.code_family@, self.t_vectors@, i as int),
                tree.wf(),
                tree.leaves() == leaf_hashes(elements_bytes(v@)),
                root@ == merkle_root(tree.leaves()),
                t == self.t_vectors@[i as int],
                challenge == self.challenges()[i as int],
                q <= half,
                folded@.len() == q,
                entries@.len() == q,
                all_in_field(folded@, self.modulus()),
                forall|a: int| 0 <= a < q ==> #[trigger] pair_distinct(t@, a),
                forall|a: int|
                    0 <= a < q ==> {
                        &&& authenticates(
                            root@,
                            v@[2 * a].val(),
                            (#[trigger] entries@[a]).proof,
                            2 * a,
                        )
                        &&& entries@[a].folded == folded@[a]
                        &&& folded@[a].val() == fold_spec(
                            v@[2 * a].val(),
                            v@[2 * a + 1].val(),
                            t@[2 * a].val(),
                            t@[2 * a + 1].val(),
                            challenge.val(),
                            self.modulus(),
                        )
                        &&& path_view(entries@[a].proof.proof@) == proof_path(
                            tree.leaves(),
                            2 * a,
                        )
                    },
            decreases half - q,
        {
            let j: usize = 2 * q;
            let value = match fold_pair(v[j], v[j + 1], t[j], t[j + 1], challenge) {
                Ok(f) => f,
                Err(e) => {
                    assert(!pair_distinct(self.t_vectors@[i as int]@, q as int));
                    return Err(CryptoError::FieldError(e));
                },
            };
            assert(pair_distinct(t@, q as int));
            let proof = self.generate_merkle_proof(&tree, j).unwrap();
            folded.push(value);
            entries.push(RoundEntry { proof, folded: value });
            q = q + 1;
        }
        let proofs = RoundProofs { root, entries };
        Ok((folded, proofs))
    }

    /// Encodes and folds round by round. Returns the oracles, the message
    /// first, and the record of each round. Where the two domain points of
    /// some pair coincide, the fold's division by zero is returned and
    /// nothing else.
    pub fn commit(&self, message: &Vec<FieldElement>) -> (res: Result<
        (Vec<Vec<FieldElement>>, Vec<RoundProofs>),
        CryptoError,
    >)
        requires
            self.wf(),
            message@.len() == self.code_family@[0].k,
            all_in_field(message@, self.modulus()),
        ensures
            match res {
                Ok(r) => {
                    &&& self.domains_distinct()
                    &&& r.0@.len() == self.rounds() + 1
                    &&& r.0@[0]@ == message@
                    &&& r.1@.len() == self.rounds()
                    &&& self.consistent(nested_view(r.0@), r.1@)
                    &&& self.recorded(nested_view(r.0@), r.1@)
                },
                Err(CryptoError::FieldError(e)) => e == FieldError::DivisionByZero
                    && !self.domains_distinct(),
                Err(_) => false,
            },
    {
        let rounds: usize = self.code_family.len();
        let mut oracles: Vec<Vec<FieldElement>> = Vec::new();
        let mut table: Vec<RoundProofs> = Vec::new();
        let mut current: Vec<FieldElement> = copy_elements(message);
        oracles.push(copy_elements(message));
        let mut i: usize = 0;
        while i < rounds
            invariant
                self.wf(),
                rounds == self.rounds(),
                i <= rounds,
                oracles@.len() == i + 1,
                table@.len() == i,
                oracles@[0]@ == message@,
                current@ == oracles@[i as int]@,
                all_in_field(current@, self.modulus()),
                i < rounds ==> current@.len() == self.code_family@[i as int].k,
                forall|a: int, q: int|
                    0 <= a < i && 0 <= q < self.code_family@[a].n / 2 ==> #[trigger] pair_distinct(
                        self.t_vectors@[a]@,
                        q,
                    ),
                forall|a: int|
                    0 <= a < i ==> #[trigger] self.round_shape_ok(
                        nested_view(oracles@),
                        table@,
                        a,
                    ),
                forall|a: int, q: int|
                    0 <= a < i && 0 <= q < self.code_family@[a].n / 2
                        ==> #[trigger] self.round_ok(nested_view(oracles@), table@, a, q),
                forall|a: int|
                    0 <= a < i ==> #[trigger] self.round_recorded(
                        a,
                        nested_view(oracles@)[a],
                        table@[a],
                    ),
            decreases rounds - i,
        {
            let ghost old_oracles = nested_view(oracles@);
            let ghost old_table = table@;
            let ghost input = current@;
            assert(round_ready(self.code_family@, self.t_vectors@, i as int));
            let codeword = self.code_family[i].encode(current);
            let (folded, proofs) = match self.fold_with_merkle(i, &codeword) {
                Ok(pair) => pair,
                Err(e) => {
                    return Err(e);
                },
            };
            oracles.push(copy_elements(&folded));
            table.push(proofs);
            current = folded;
            proof {
                let now = nested_view(oracles@);
                if i + 1 < rounds {
                    assert(rounds_linked(self.code_family@, i as int));
                }
                assert forall|a: int| 0 <= a < i + 1 implies #[trigger] self.round_shape_ok(
                    now,
                    table@,
                    a,
                ) by {
                    if a < i {
                        assert(self.round_shape_ok(old_oracles, old_table, a));
                        assert(now[a] == old_oracles[a]);
                        assert(now[a + 1] == old_oracles[a + 1]);
                        assert(table@[a] == old_table[a]);
                    } else {
                        assert(now[a] == input);
                    }
                }
                assert forall|a: int| 0 <= a < i + 1 implies #[trigger] self.round_recorded(
                    a,
                    now[a],
                    table@[a],
                ) by {
                    if a < i {
                        assert(self.round_recorded(a, old_oracles[a], old_table[a]));
                        assert(now[a] == old_oracles[a]);
                        assert(table@[a] == old_table[a]);
                    } else {
                        assert(now[a] == input);
                        assert(elements_bytes(codeword@) =~= self.codeword_bytes(a, input));
                    }
                }
                assert forall|a: int, q: int|
                    0 <= a < i + 1 && 0 <= q < self.code_family@[a].n / 2
                    implies #[trigger] self.round_ok(now, table@, a, q) by {
                    if a < i {
                        assert(self.round_ok(old_oracles, old_table, a, q));
                        assert(now[a] == old_oracles[a]);
                        assert(now[a + 1] == old_oracles[a + 1]);
                        assert(table@[a] == old_table[a]);
                    } else {
                        assert(now[a] == input);
                        assert(now[a + 1] == current@);
                        assert(self.pair_ok(
                            i as int,
                            codeword@[2 * q].val(),
                            codeword@[2 * q + 1].val(),
                            current@[q],
                            table@[a],
                            q,
                        ));
                    }
                }
            }
            i = i + 1;
        }
        Ok((oracles, table))
    }

    /// Whether the transcript has one oracle more than there are rounds,
    /// one record per round, and the right sizes throughout.
    pub fn transcript_shape(
        &self,
        oracles: &Vec<Vec<FieldElement>>,
        table: &Vec<RoundProofs>,
    ) -> (ok: bool)
        requires
            self.wf(),
        ensures
            ok == self.shape_ok(nested_view(oracles@), table@),
    {
        let rounds: usize = self.code_family.len();
        if table.len() != rounds || oracles.len() < rounds || oracles.len() - rounds != 1 {
            return false;
        }
        assert(round_ready(self.code_family@, self.t_vectors@, 0));
        let p: u128 = self.code_family[0].modulus;
        let mut i: usize = 0;
        while i < rounds
            invariant
                self.wf(),
                rounds == self.rounds(),
                p == self.modulus(),
                oracles@.len() == rounds + 1,
                table@.len() == rounds,
                i <= rounds,
                forall|a: int|
                    0 <= a < i ==> #[trigger] self.round_shape_ok(
                        nested_view(oracles@),
                        table@,
                        a,
                    ),
            decreases rounds - i,
        {
            let code = &self.code_family[i];
            let fits = oracles[i].len() == code.k && oracles[i + 1].len() == code.n / 2
                && table[i].entries.len() == code.n / 2 && vector_in_field(&oracles[i], p)
                && vector_in_field(&oracles[i + 1], p);
            if !fits {
                assert(!self.round_shape_ok(nested_view(oracles@), table@, i as int));
                return false;
            }
            i = i + 1;
        }
        true
    }

    /// Replays round `i` at pair `q`: authentication of the pair's first
    /// value under the round's root, and the fold relation against the
    /// next oracle.
    pub fn verify_round(
        &self,
        oracles: &Vec<Vec<FieldElement>>,
        table: &Vec<RoundProofs>,
        i: usize,
        q: usize,
    ) -> (ok: bool)
        requires
            self.wf(),
            self.shape_ok(nested_view(oracles@), table@),
            i < self.rounds(),
            q < self.code_family@[i as int].n / 2,
        ensures
            ok == self.round_ok(nested_view(oracles@), table@, i as int, q as int),
    {
        proof {
            assert(round_ready(self.code_family@, self.t_vectors@, i as int));
            assert(round_ready(self.code_family@, self.t_vectors@, 0));
            assert(self.round_shape_ok(nested_view(oracles@), table@, i as int));
        }
        let count: usize = oracles.len();
        assert(count == nested_view(oracles@).len());
        let code = &self.code_family[i];
        let codeword = code.encode(copy_elements(&oracles[i]));
        let entry = &table[i].entries[q];
        let next = &oracles[i + 1];
        let challenge = self.commitment_randomness[i];
        let authentic = self.verify_merkle_proof(&table[i].root, &codeword[2 * q], &entry.proof, 2 * q);
        let recorded = entry.folded == next[q];
        let folds = self.verify_fold_at_point(&codeword, next, &self.t_vectors[i], challenge, q);
        authentic && recorded && folds
    }

    /// One consistency check from index `mu` of the last round, back to
    /// the first. A transcript of the wrong shape, or an index beyond a
    /// round's codeword, fails it.
    pub fn verify_query_path_with_merkle(
        &self,
        oracles: &Vec<Vec<FieldElement>>,
        table: &Vec<RoundProofs>,
        mu: usize,
    ) -> (ok: bool)
        requires
            self.wf(),
        ensures
            ok == self.check_ok(nested_view(oracles@), table@, mu as int),
    {
        if !self.transcript_shape(oracles, table) {
            return false;
        }
        let mut i: usize = self.code_family.len();
        let mut cur: usize = mu;
        while i > 0
            invariant
                self.wf(),
                self.shape_ok(nested_view(oracles@), table@),
                i <= self.rounds(),
                self.check_ok(nested_view(oracles@), table@, mu as int) == self.path_ok(
                    nested_view(oracles@),
                    table@,
                    i - 1,
                    cur as int,
                ),
            decreases i,
        {
            i = i - 1;
            let q: usize = cur / 2;
            if q >= self.code_family[i].n / 2 {
                return false;
            }
            if !self.verify_round(oracles, table, i, q) {
                return false;
            }
            cur = q;
        }
        true
    }

    /// Runs the consistency check from each of `indices` and accepts when
    /// all of them pass.
    pub fn query_at(
        &self,
        oracles: &Vec<Vec<FieldElement>>,
        table: &Vec<RoundProofs>,
        indices: &Vec<usize>,
    ) -> (ok: bool)
        requires
            self.wf(),
        ensures
            ok == (forall|i: int|
                0 <= i < indices@.len() ==> self.check_ok(
                    nested_view(oracles@),
                    table@,
                    #[trigger] indices@[i] as int,
                )),
    {
        let mut i: usize = 0;
        while i < indices.len()
            invariant
                self.wf(),
                i <= indices.len(),
                forall|j: int|
                    0 <= j < i ==> self.check_ok(
                        nested_view(oracles@),
                        table@,
                        #[trigger] indices@[j] as int,
                    ),
            decreases indices.len() - i,
        {
            if !self.verify_query_path_with_merkle(oracles, table, indices[i]) {
                return false;
            }
            i = i + 1;
        }
        true
    }

    /// Draws `lambda` indices into the last round's codeword, runs the
    /// consistency check from each, and accepts when all of them pass.
    pub fn query(
        &self,
        oracles: &Vec<Vec<FieldElement>>,
        table: &Vec<RoundProofs>,
        lambda: usize,
    ) -> (ok: bool)
        requires
            self.wf(),
        ensures
            lambda == 0 ==> ok,
            self.consistent(nested_view(oracles@), table@) ==> ok,
            (lambda > 0 && !self.shape_ok(nested_view(oracles@), table@)) ==> !ok,
            exists|indices: Seq<usize>|
                indices.len() == lambda && self.in_last_round(indices) && ok
                    == #[trigger] self.all_pass(nested_view(oracles@), table@, indices),
    {
        let last: usize = self.code_family.len() - 1;
        proof {
            assert(round_ready(self.code_family@, self.t_vectors@, last as int));
            lemma_pow2_pos(self.code_family@[last as int].variables as nat);
        }
        let bound: usize = self.code_family[last].n;
        let mut draws: Vec<usize> = Vec::new();
        let mut done: usize = 0;
        while done < lambda
            invariant
                bound > 0,
                done <= lambda,
                draws@.len() == done,
                forall|j: int| 0 <= j < done ==> #[trigger] draws@[j] < bound,
            decreases lambda - done,
        {
            draws.push(random_index(bound));
            done = done + 1;
        }
        let ok = self.query_at(oracles, table, &draws);
        proof {
            let o = nested_view(oracles@);
            if self.consistent(o, table@) {
                assert forall|j: int| 0 <= j < draws@.len() implies self.check_ok(
                    o,
                    table@,
                    #[trigger] draws@[j] as int,
                ) by {
                    self.lemma_consistent_accepts(o, table@, draws@[j] as int);
                }
            }
            if lambda > 0 && !self.shape_ok(o, table@) {
                assert(!self.check_ok(o, table@, draws@[0] as int));
            }
            assert(ok == self.all_pass(o, table@, draws@));
            assert(self.in_last_round(draws@));
        }
        ok
    }
}

} // verus!
