use crate::error::CryptoError;
use sha3::{Digest, Sha3_256};
use vstd::prelude::*;

verus! {

/// The SHA3-256 digest of a byte string.
pub uninterp spec fn sha3_256(data: Seq<u8>) -> Seq<u8>;

/// `Sha3_256::digest` of the `sha3` crate: the 32 bytes it returns are the
/// SHA3-256 digest of `data`, a function of the bytes alone.
#[verifier::external_body]
fn sha3_digest(data: &[u8]) -> (r: [u8; 32])
    ensures
        r@ == sha3_256(data@),
{
    let out = Sha3_256::digest(data);
    let mut r = [0u8; 32];
    r.copy_from_slice(&out);
    r
}

/// The views of a run of hashes.
pub open spec fn hashes_view(v: Seq<[u8; 32]>) -> Seq<Seq<u8>> {
    Seq::new(v.len(), |i: int| v[i]@)
}

/// The views of a run of byte strings.
pub open spec fn values_view(v: Seq<Vec<u8>>) -> Seq<Seq<u8>> {
    Seq::new(v.len(), |i: int| v[i]@)
}

/// One leaf hash per value.
pub open spec fn leaf_hashes(values: Seq<Seq<u8>>) -> Seq<Seq<u8>> {
    Seq::new(values.len(), |i: int| sha3_256(values[i]))
}

/// The hash of an inner node over its two children.
pub open spec fn node_hash(left: Seq<u8>, right: Seq<u8>) -> Seq<u8> {
    sha3_256(left + right)
}

/// The neighbour of position `i` in a layer; the last node of an odd layer
/// is its own neighbour.
pub open spec fn sibling_index(len: nat, i: int) -> int {
    if i % 2 == 0 {
        if i + 1 < len {
            i + 1
        } else {
            i
        }
    } else {
        i - 1
    }
}

/// The layer above `layer`.
pub open spec fn next_layer(layer: Seq<Seq<u8>>) -> Seq<Seq<u8>> {
    Seq::new(
        ((layer.len() + 1) / 2) as nat,
        |i: int| node_hash(layer[2 * i], layer[sibling_index(layer.len(), 2 * i)]),
    )
}

/// The single hash that a layer reduces to.
pub open spec fn merkle_root(layer: Seq<Seq<u8>>) -> Seq<u8>
    decreases layer.len(),
{
    if layer.len() <= 1 {
        layer[0]
    } else {
        merkle_root(next_layer(layer))
    }
}

/// One step up the tree from `current`, which is the left child where
/// `step.1` holds.
pub open spec fn climb(current: Seq<u8>, step: (Seq<u8>, bool)) -> Seq<u8> {
    if step.1 {
        node_hash(current, step.0)
    } else {
        node_hash(step.0, current)
    }
}

/// The hash reached from `current` by following `path` upwards.
pub open spec fn path_root(current: Seq<u8>, path: Seq<(Seq<u8>, bool)>) -> Seq<u8>
    decreases path.len(),
{
    if path.len() == 0 {
        current
    } else {
        path_root(climb(current, path[0]), path.drop_first())
    }
}

/// The authentication path of position `i` in `layer`.
pub open spec fn proof_path(layer: Seq<Seq<u8>>, i: int) -> Seq<(Seq<u8>, bool)>
    decreases layer.len(),
{
    if layer.len() <= 1 {
        Seq::empty()
    } else {
        seq![(layer[sibling_index(layer.len(), i)], i % 2 == 0)] + proof_path(
            next_layer(layer),
            i / 2,
        )
    }
}

/// Following the authentication path of any position leads to the root.
pub proof fn lemma_path_reaches_root(layer: Seq<Seq<u8>>, i: int)
    requires
        0 <= i < layer.len(),
    ensures
        path_root(layer[i], proof_path(layer, i)) == merkle_root(layer),
    decreases layer.len(),
{
    if layer.len() > 1 {
        let up = next_layer(layer);
        let path = proof_path(layer, i);
        lemma_path_reaches_root(up, i / 2);
        assert(path.drop_first() =~= proof_path(up, i / 2));
        assert(climb(layer[i], path[0]) == up[i / 2]);
    }
}

/// The bytes that one step up the tree hashes.
pub open spec fn climb_input(current: Seq<u8>, step: (Seq<u8>, bool)) -> Seq<u8> {
    if step.1 {
        current + step.0
    } else {
        step.0 + current
    }
}

/// Somewhere along `path`, followed from `a` and from `b`, two different
/// inputs hash to the same node.
pub open spec fn collides_along(a: Seq<u8>, b: Seq<u8>, path: Seq<(Seq<u8>, bool)>) -> bool
    decreases path.len(),
{
    if path.len() == 0 {
        false
    } else {
        ||| (climb_input(a, path[0]) != climb_input(b, path[0]) && climb(a, path[0]) == climb(
            b,
            path[0],
        ))
        ||| collides_along(climb(a, path[0]), climb(b, path[0]), path.drop_first())
    }
}

/// A path followed from a changed leaf hash does not reach the hash that
/// it reaches from the unchanged one, unless the hash function collides
/// on the way.
pub proof fn lemma_changed_leaf_changes_root(a: Seq<u8>, b: Seq<u8>, path: Seq<(Seq<u8>, bool)>)
    requires
        a != b,
        !collides_along(a, b, path),
    ensures
        path_root(a, path) != path_root(b, path),
    decreases path.len(),
{
    if path.len() > 0 {
        let s = path[0];
        if climb_input(a, s) == climb_input(b, s) {
            if s.1 {
                assert((a + s.0).len() == (b + s.0).len());
                assert(a =~= (a + s.0).subrange(0, a.len() as int));
                assert(b =~= (b + s.0).subrange(0, b.len() as int));
            } else {
                assert((s.0 + a).len() == (s.0 + b).len());
                assert(a =~= (s.0 + a).subrange(s.0.len() as int, (s.0 + a).len() as int));
                assert(b =~= (s.0 + b).subrange(s.0.len() as int, (s.0 + b).len() as int));
            }
            assert(false);
        }
        lemma_changed_leaf_changes_root(climb(a, s), climb(b, s), path.drop_first());
    }
}

/// What node `k` of the layer above `layer` hashes.
pub open spec fn node_input(layer: Seq<Seq<u8>>, k: int) -> Seq<u8> {
    layer[2 * k] + layer[sibling_index(layer.len(), 2 * k)]
}

/// Every hash of the layer, and of each layer above it, is 32 bytes long.
pub open spec fn wide_up(layer: Seq<Seq<u8>>) -> bool
    decreases layer.len(),
{
    &&& forall|k: int| 0 <= k < layer.len() ==> (#[trigger] layer[k]).len() == 32
    &&& layer.len() > 1 ==> wide_up(next_layer(layer))
}

/// Node `k` above the two layers is the same hash of two different
/// inputs.
pub open spec fn node_collides(l1: Seq<Seq<u8>>, l2: Seq<Seq<u8>>, k: int) -> bool {
    node_input(l1, k) != node_input(l2, k) && sha3_256(node_input(l1, k)) == sha3_256(
        node_input(l2, k),
    )
}

/// Somewhere between two layers of one length and their roots, two
/// different inputs hash to the same node.
pub open spec fn layers_collide(l1: Seq<Seq<u8>>, l2: Seq<Seq<u8>>) -> bool
    decreases l1.len(),
{
    if l1.len() <= 1 || l2.len() != l1.len() {
        false
    } else {
        ||| exists|k: int| 0 <= k < (l1.len() + 1) / 2 && #[trigger] node_collides(l1, l2, k)
        ||| layers_collide(next_layer(l1), next_layer(l2))
    }
}

/// Two different layers of one length reduce to different roots, unless
/// the hash function collides on the way: a tree with a changed leaf has
/// another root.
pub proof fn lemma_changed_layer_changes_root(l1: Seq<Seq<u8>>, l2: Seq<Seq<u8>>)
    requires
        l1.len() == l2.len(),
        l1 != l2,
        wide_up(l1),
        wide_up(l2),
        !layers_collide(l1, l2),
    ensures
        merkle_root(l1) != merkle_root(l2),
    decreases l1.len(),
{
    if forall|j: int| 0 <= j < l1.len() ==> l1[j] == l2[j] {
        assert(l1 =~= l2);
    }
    let j = choose|j: int| 0 <= j < l1.len() && l1[j] != l2[j];
    if l1.len() > 1 {
        let k = j / 2;
        let n1 = next_layer(l1);
        let n2 = next_layer(l2);
        let sib = sibling_index(l1.len(), 2 * k);
        let a1 = l1[2 * k];
        let a2 = l2[2 * k];
        let b1 = l1[sib];
        let b2 = l2[sib];
        assert(j == 2 * k || j == sib);
        if a1 + b1 == a2 + b2 {
            assert(a1 =~= (a1 + b1).subrange(0, 32));
            assert(a2 =~= (a2 + b2).subrange(0, 32));
            assert(b1 =~= (a1 + b1).subrange(32, 64));
            assert(b2 =~= (a2 + b2).subrange(32, 64));
            assert(false);
        }
        assert(node_input(l1, k) != node_input(l2, k));
        assert(n1[k] == sha3_256(node_input(l1, k)));
        assert(n2[k] == sha3_256(node_input(l2, k)));
        if n1[k] == n2[k] {
            assert(node_collides(l1, l2, k));
            assert(false);
        }
        lemma_changed_layer_changes_root(n1, n2);
    }
}

/// The views of the steps of a stored path.
pub open spec fn path_view(p: Seq<([u8; 32], bool)>) -> Seq<(Seq<u8>, bool)> {
    Seq::new(p.len(), |i: int| (p[i].0@, p[i].1))
}

/// Whether two hashes hold the same bytes.
pub fn hash_eq(a: &[u8; 32], b: &[u8; 32]) -> (r: bool)
    ensures
        r == (a@ == b@),
{
    let mut i: usize = 0;
    while i < 32
        invariant
            i <= 32,
            forall|j: int| 0 <= j < i ==> a@[j] == b@[j],
        decreases 32 - i,
    {
        if a[i] != b[i] {
            return false;
        }
        i = i + 1;
    }
    assert(a@ =~= b@);
    true
}

/// The hash of a leaf value.
pub fn hash_leaf(value: &Vec<u8>) -> (r: [u8; 32])
    ensures
        r@ == sha3_256(value@),
{
    sha3_digest(value.as_slice())
}

/// The hash of an inner node.
pub fn hash_pair(left: &[u8; 32], right: &[u8; 32]) -> (r: [u8; 32])
    ensures
        r@ == node_hash(left@, right@),
{
    let mut buf: Vec<u8> = Vec::new();
    let mut i: usize = 0;
    while i < 32
        invariant
            i <= 32,
            buf@ == left@.subrange(0, i as int),
        decreases 32 - i,
    {
        buf.push(left[i]);
        i = i + 1;
        assert(buf@ =~= left@.subrange(0, i as int));
    }
    i = 0;
    while i < 32
        invariant
            i <= 32,
            buf@ == left@ + right@.subrange(0, i as int),
        decreases 32 - i,
    {
        buf.push(right[i]);
        i = i + 1;
        assert(buf@ =~= left@ + right@.subrange(0, i as int));
    }
    assert(buf@ =~= left@ + right@);
    sha3_digest(buf.as_slice())
}

/// A binary hash tree, stored layer by layer from the leaves up.
pub struct MerkleTree {
    layers: Vec<Vec<[u8; 32]>>,
}

/// A leaf with the siblings on its way to the root. Each step holds the
/// sibling and whether the running node is the left child.
pub struct MerkleProof {
    pub proof: Vec<([u8; 32], bool)>,
    pub leaf: [u8; 32],
    pub index: usize,
}

impl MerkleTree {
    /// The leaf hashes.
    pub closed spec fn leaves(self) -> Seq<Seq<u8>> {
        hashes_view(self.layers@[0]@)
    }

    closed spec fn layer(self, l: int) -> Seq<Seq<u8>> {
        hashes_view(self.layers@[l]@)
    }

    /// Each layer is built from the one below and only the top one has
    /// fewer than two nodes.
    pub closed spec fn wf(self) -> bool {
        &&& self.layers@.len() >= 1
        &&& forall|l: int|
            0 <= l < self.layers@.len() - 1 ==> self.layers@[l]@.len() > 1 && #[trigger] self.layer(
                l + 1,
            ) == next_layer(self.layer(l))
        &&& self.layers@[self.layers@.len() - 1]@.len() <= 1
    }

    proof fn lemma_layer_root(self, l: int)
        requires
            self.wf(),
            0 <= l < self.layers@.len(),
        ensures
            merkle_root(self.layer(l)) == self.layer(self.layers@.len() - 1)[0],
        decreases self.layers@.len() - l,
    {
        if l < self.layers@.len() - 1 {
            assert(self.layer(l + 1) == next_layer(self.layer(l)));
            self.lemma_layer_root(l + 1);
        }
    }

    proof fn lemma_layer_path(self, l: int, i: int)
        requires
            self.wf(),
            0 <= l < self.layers@.len() - 1,
        ensures
            self.layer(l).len() > 1,
            proof_path(self.layer(l), i) == seq![
                (self.layer(l)[sibling_index(self.layer(l).len(), i)], i % 2 == 0),
            ] + proof_path(self.layer(l + 1), i / 2),
    {
        assert(self.layer(l + 1) == next_layer(self.layer(l)));
    }

    proof fn lemma_layer_wide(self, l: int)
        requires
            self.wf(),
            0 <= l < self.layers@.len(),
        ensures
            wide_up(self.layer(l)),
        decreases self.layers@.len() - l,
    {
        if l < self.layers@.len() - 1 {
            assert(self.layer(l + 1) == next_layer(self.layer(l)));
            self.lemma_layer_wide(l + 1);
        }
    }

    /// Every hash of the tree is 32 bytes long.
    pub proof fn lemma_leaves_wide(self)
        requires
            self.wf(),
        ensures
            wide_up(self.leaves()),
    {
        self.lemma_layer_wide(0);
    }

    /// A proof that reaches the root of a tree over changed leaves does
    /// not reach the root of the tree over the unchanged ones, so it fails
    /// `verify` against that root, unless the hash function collides on
    /// the way.
    pub proof fn lemma_tamper_detected(self, changed: MerkleTree, proof: MerkleProof)
        requires
            self.wf(),
            changed.wf(),
            self.leaves().len() == changed.leaves().len(),
            self.leaves() != changed.leaves(),
            !layers_collide(self.leaves(), changed.leaves()),
            path_root(proof.leaf@, path_view(proof.proof@)) == merkle_root(changed.leaves()),
        ensures
            path_root(proof.leaf@, path_view(proof.proof@)) != merkle_root(self.leaves()),
    {
        self.lemma_leaves_wide();
        changed.lemma_leaves_wide();
        lemma_changed_layer_changes_root(self.leaves(), changed.leaves());
    }

    /// Hashes every value into a leaf and builds the layers above.
    pub fn new(values: &Vec<Vec<u8>>) -> (t: Self)
        ensures
            t.wf(),
            t.leaves() == leaf_hashes(values_view(values@)),
    {
        let mut leaves: Vec<[u8; 32]> = Vec::new();
        let mut i: usize = 0;
        while i < values.len()
            invariant
                i <= values.len(),
                leaves@.len() == i,
                forall|j: int| 0 <= j < i ==> (#[trigger] leaves@[j])@ == sha3_256(values@[j]@),
            decreases values.len() - i,
        {
            let h = hash_leaf(&values[i]);
            leaves.push(h);
            i = i + 1;
        }
        assert(hashes_view(leaves@) =~= leaf_hashes(values_view(values@)));
        let mut layers: Vec<Vec<[u8; 32]>> = Vec::new();
        let mut current: Vec<[u8; 32]> = leaves;
        while current.len() > 1
            invariant
                hashes_view(current@) == if layers@.len() == 0 {
                    leaf_hashes(values_view(values@))
                } else {
                    next_layer(hashes_view(layers@[layers@.len() - 1]@))
                },
                layers@.len() > 0 ==> hashes_view(layers@[0]@) == leaf_hashes(
                    values_view(values@),
                ),
                forall|l: int|
                    0 <= l < layers@.len() ==> (#[trigger] layers@[l])@.len() > 1,
                forall|l: int|
                    0 <= l < layers@.len() - 1 ==> hashes_view(#[trigger] layers@[l + 1]@)
                        == next_layer(hashes_view(layers@[l]@)),
            decreases current.len(),
        {
            let mut next: Vec<[u8; 32]> = Vec::new();
            let n: usize = current.len();
            let half: usize = n / 2 + n % 2;
            let mut p: usize = 0;
            while p < half
                invariant
                    n == current.len(),
                    half == (n + 1) / 2,
                    p <= half,
                    next@.len() == p,
                    forall|k: int|
                        0 <= k < next@.len() ==> (#[trigger] next@[k])@ == next_layer(
                            hashes_view(current@),
                        )[k],
                decreases half - p,
            {
                let j: usize = 2 * p;
                let h = if j + 1 < n {
                    hash_pair(&current[j], &current[j + 1])
                } else {
                    hash_pair(&current[j], &current[j])
                };
                next.push(h);
                p = p + 1;
            }
            assert(hashes_view(next@) =~= next_layer(hashes_view(current@)));
            layers.push(current);
            current = next;
        }
        layers.push(current);
        let t = MerkleTree { layers };
        proof {
            assert forall|l: int| 0 <= l < t.layers@.len() - 1 implies t.layers@[l]@.len() > 1
                && #[trigger] t.layer(l + 1) == next_layer(t.layer(l)) by {
                assert(hashes_view(t.layers@[l + 1]@) == next_layer(hashes_view(t.layers@[l]@)));
            }
        }
        t
    }

    /// Number of leaves.
    pub fn leaf_count(&self) -> (n: usize)
        requires
            self.wf(),
        ensures
            n == self.leaves().len(),
    {
        self.layers[0].len()
    }

    /// The top hash. A tree without leaves has none.
    pub fn root(&self) -> (r: [u8; 32])
        requires
            self.wf(),
            self.leaves().len() > 0,
        ensures
            r@ == merkle_root(self.leaves()),
    {
        proof {
            self.lemma_layer_root(0);
            let top = self.layers@.len() - 1;
            if top > 0 {
                assert(self.layer(top - 1 + 1) == next_layer(self.layer(top - 1)));
            }
            assert(self.layer(top).len() == self.layers@[top]@.len());
        }
        self.layers[self.layers.len() - 1][0]
    }

    /// The authentication path of leaf `index`.
    pub fn generate_proof(&self, index: usize) -> (r: Result<MerkleProof, CryptoError>)
        requires
            self.wf(),
        ensures
            match r {
                Ok(p) => index < self.leaves().len() && p.index == index && p.leaf@
                    == self.leaves()[index as int] && path_view(p.proof@) == proof_path(
                    self.leaves(),
                    index as int,
                ) && path_root(p.leaf@, path_view(p.proof@)) == merkle_root(self.leaves()),
                Err(CryptoError::InvalidParameters(_)) => index >= self.leaves().len(),
                Err(_) => false,
            },
    {
        if index >= self.layers[0].len() {
            return Err(CryptoError::InvalidParameters("Index out of bounds".to_owned()));
        }
        let mut proof: Vec<([u8; 32], bool)> = Vec::new();
        let mut current_idx: usize = index;
        let top: usize = self.layers.len() - 1;
        let mut level: usize = 0;
        assert(path_view(proof@) + proof_path(self.layer(0), index as int) =~= proof_path(
            self.leaves(),
            index as int,
        ));
        while level < top
            invariant
                self.wf(),
                top == self.layers@.len() - 1,
                level <= top,
                current_idx < self.layers@[level as int]@.len(),
                proof_path(self.leaves(), index as int) == path_view(proof@) + proof_path(
                    self.layer(level as int),
                    current_idx as int,
                ),
            decreases top - level,
        {
            let layer = &self.layers[level];
            let is_left: bool = current_idx % 2 == 0;
            let sibling_idx: usize = if is_left {
                if current_idx + 1 < layer.len() {
                    current_idx + 1
                } else {
                    current_idx
                }
            } else {
                current_idx - 1
            };
            let ghost before = path_view(proof@);
            proof.push((layer[sibling_idx], is_left));
            proof {
                self.lemma_layer_path(level as int, current_idx as int);
                assert(self.layer(level + 1) == next_layer(self.layer(level as int)));
                let step = seq![
                    (
                        self.layer(level as int)[sibling_index(
                            self.layer(level as int).len(),
                            current_idx as int,
                        )],
                        is_left,
                    ),
                ];
                assert(path_view(proof@) =~= before + step);
                assert((before + step) + proof_path(self.layer(level + 1), current_idx as int / 2)
                    =~= before + (step + proof_path(
                    self.layer(level + 1),
                    current_idx as int / 2,
                )));
            }
            current_idx = current_idx / 2;
            level = level + 1;
        }
        proof {
            assert(proof_path(self.layer(top as int), current_idx as int) =~= Seq::empty());
            assert(path_view(proof@) + Seq::<(Seq<u8>, bool)>::empty() =~= path_view(proof@));
            lemma_path_reaches_root(self.leaves(), index as int);
        }
        Ok(MerkleProof { proof, leaf: self.layers[0][index], index })
    }
}

impl MerkleProof {
    /// Recomputes the hashes along the path and compares the last with
    /// `root`.
    pub fn verify(&self, root: [u8; 32]) -> (ok: bool)
        ensures
            ok == (path_root(self.leaf@, path_view(self.proof@)) == root@),
    {
        let mut current: [u8; 32] = self.leaf;
        let mut i: usize = 0;
        let ghost path = path_view(self.proof@);
        assert(path.subrange(0, path.len() as int) =~= path);
        while i < self.proof.len()
            invariant
                i <= self.proof@.len(),
                path == path_view(self.proof@),
                path_root(self.leaf@, path) == path_root(
                    current@,
                    path.subrange(i as int, path.len() as int),
                ),
            decreases self.proof@.len() - i,
        {
            let ghost rest = path.subrange(i as int, path.len() as int);
            let sibling: [u8; 32] = self.proof[i].0;
            let is_left: bool = self.proof[i].1;
            current = if is_left {
                hash_pair(&current, &sibling)
            } else {
                hash_pair(&sibling, &current)
            };
            i = i + 1;
            assert(rest.drop_first() =~= path.subrange(i as int, path.len() as int));
        }
        hash_eq(&current, &root)
    }
}

} // verus!
