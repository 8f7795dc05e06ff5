use crate::field::{add_mod, mul_mod, FieldElement};
use vstd::arithmetic::div_mod::*;
use vstd::arithmetic::power2::*;
use vstd::prelude::*;

verus! {

/// The views of a run of vectors.
pub open spec fn nested_view<T>(v: Seq<Vec<T>>) -> Seq<Seq<T>> {
    Seq::new(v.len(), |i: int| v[i]@)
}

/// Binomial coefficient, by Pascal's rule.
pub open spec fn binomial(n: nat, k: nat) -> nat
    decreases n,
{
    if k == 0 {
        1
    } else if n == 0 {
        0
    } else {
        binomial((n - 1) as nat, (k - 1) as nat) + binomial((n - 1) as nat, k)
    }
}

/// Number of monomials of total degree at most `r` in `m` boolean
/// variables.
pub open spec fn dimension(r: nat, m: nat) -> nat
    decreases r,
{
    if r == 0 {
        1
    } else {
        dimension((r - 1) as nat, m) + binomial(m, r)
    }
}

/// The increasing `k`-element selections from `start..n`, in lexicographic
/// order.
pub open spec fn combos(n: usize, k: nat, start: usize) -> Seq<Seq<usize>>
    decreases n - start,
{
    if k == 0 {
        seq![Seq::empty()]
    } else if start >= n {
        Seq::empty()
    } else {
        combos(n, (k - 1) as nat, (start + 1) as usize).map_values(
            |c: Seq<usize>| seq![start] + c,
        ) + combos(n, k, (start + 1) as usize)
    }
}

/// The monomials over `m` variables of the `count` degrees from `lo` on,
/// by degree.
pub open spec fn monomials(m: usize, lo: nat, count: nat) -> Seq<Seq<usize>>
    decreases count,
{
    if count == 0 {
        Seq::empty()
    } else {
        monomials(m, lo, (count - 1) as nat) + combos(m, (lo + count - 1) as nat, 0)
    }
}

/// Bit `v` of `j`.
pub open spec fn bit_of(j: nat, v: nat) -> bool {
    (j / pow2(v)) % 2 == 1
}

/// The points of the boolean hypercube of dimension `m`: coordinate `v` of
/// point `j` is bit `v` of `j`.
pub open spec fn hypercube(m: nat) -> Seq<Seq<u8>> {
    Seq::new(pow2(m), |j: int| Seq::new(m, |v: int| if bit_of(j as nat, v as nat) { 1u8 } else { 0u8 }))
}

/// Value of a monomial at a point: one where every variable of the
/// monomial is one, else zero.
pub open spec fn indicator(mono: Seq<usize>, point: Seq<u8>) -> nat {
    if forall|t: int| 0 <= t < mono.len() ==> mono[t] < point.len() && point[mono[t] as int] == 1 {
        1
    } else {
        0
    }
}

/// `rows` holds one row per monomial and one entry per point: the
/// monomial's value at the point, as an element modulo `p`.
pub open spec fn is_evaluation_matrix(
    rows: Seq<Vec<FieldElement>>,
    monos: Seq<Seq<usize>>,
    points: Seq<Seq<u8>>,
    p: nat,
) -> bool {
    &&& rows.len() == monos.len()
    &&& forall|i: int|
        0 <= i < rows.len() ==> (#[trigger] rows[i])@.len() == points.len()
    &&& forall|i: int, j: int|
        0 <= i < rows.len() && 0 <= j < points.len() ==> {
            let e = #[trigger] rows[i]@[j];
            e.wf() && e.modu() == p && e.val() == indicator(monos[i], points[j])
        }
}

/// Each element is valid modulo `p`.
pub open spec fn all_in_field(v: Seq<FieldElement>, p: nat) -> bool {
    forall|i: int| 0 <= i < v.len() ==> (#[trigger] v[i]).wf() && v[i].modu() == p
}

/// The number of selections is the binomial coefficient.
pub proof fn lemma_combos_len(n: usize, k: nat, start: usize)
    requires
        start <= n,
    ensures
        combos(n, k, start).len() == binomial((n - start) as nat, k),
    decreases n - start,
{
    if k != 0 && start < n {
        lemma_combos_len(n, (k - 1) as nat, (start + 1) as usize);
        lemma_combos_len(n, k, (start + 1) as usize);
    }
}

/// The monomials of degree at most `r` number `dimension(r, m)`.
pub proof fn lemma_monomials_len(m: usize, r: nat)
    ensures
        monomials(m, 0, r + 1).len() == dimension(r, m as nat),
    decreases r,
{
    lemma_combos_len(m, r, 0);
    if r > 0 {
        lemma_monomials_len(m, (r - 1) as nat);
    } else {
        assert(monomials(m, 0, 0).len() == 0);
    }
}

/// No selection is larger than what it selects from.
pub proof fn lemma_binomial_zero(n: nat, k: nat)
    requires
        k > n,
    ensures
        binomial(n, k) == 0,
    decreases n,
{
    if n > 0 {
        lemma_binomial_zero((n - 1) as nat, (k - 1) as nat);
        lemma_binomial_zero((n - 1) as nat, k);
    }
}

/// Degrees beyond the number of variables add no monomial.
pub proof fn lemma_dimension_cap(r: nat, m: nat)
    requires
        r >= m,
    ensures
        dimension(r, m) == dimension(m, m),
    decreases r,
{
    if r > m {
        lemma_binomial_zero(m, r);
        lemma_dimension_cap((r - 1) as nat, m);
    }
}

/// Pascal's rule for the sums: the monomials of degree at most `r` either
/// leave the last variable out or hold it.
pub proof fn lemma_dimension_pascal(r: nat, m: nat)
    requires
        r >= 1,
        m >= 1,
    ensures
        dimension(r, m) == dimension(r, (m - 1) as nat) + dimension((r - 1) as nat, (m - 1) as nat),
    decreases r,
{
    let m1 = (m - 1) as nat;
    let r1 = (r - 1) as nat;
    assert(binomial(m, r) == binomial(m1, r1) + binomial(m1, r));
    assert(dimension(r, m) == dimension(r1, m) + binomial(m, r));
    assert(dimension(r, m1) == dimension(r1, m1) + binomial(m1, r));
    if r > 1 {
        lemma_dimension_pascal(r1, m);
        assert(dimension(r1, m1) == dimension((r1 - 1) as nat, m1) + binomial(m1, r1));
    } else {
        assert(dimension(0, m) == 1);
        assert(dimension(0, m1) == 1);
        assert(binomial(m1, 0) == 1);
    }
}

/// With every degree allowed there are as many monomials as points.
pub proof fn lemma_dimension_full(m: nat)
    ensures
        dimension(m, m) == pow2(m),
    decreases m,
{
    if m == 0 {
        lemma2_to64();
    } else {
        lemma_dimension_full((m - 1) as nat);
        lemma_dimension_pascal(m, m);
        lemma_dimension_cap(m, (m - 1) as nat);
        lemma_pow2_unfold(m);
    }
}

proof fn lemma_monomials_split(m: usize, a: nat, b: nat)
    ensures
        monomials(m, 0, a + b).len() == monomials(m, 0, a).len() + monomials(m, a, b).len(),
    decreases b,
{
    if b > 0 {
        lemma_monomials_split(m, a, (b - 1) as nat);
    }
}

proof fn lemma_monomials_cap(m: usize, lo: nat, count: nat)
    requires
        lo + count > m,
    ensures
        monomials(m, lo, count) == monomials(m, lo, if lo > m { 0 } else { (m + 1 - lo) as nat }),
    decreases count,
{
    if count > 0 && lo + count > m + 1 {
        lemma_combos_len(m, (lo + count - 1) as nat, 0);
        lemma_binomial_zero(m as nat, (lo + count - 1) as nat);
        lemma_monomials_cap(m, lo, (count - 1) as nat);
        assert(monomials(m, lo, count) =~= monomials(m, lo, (count - 1) as nat));
    }
}

proof fn lemma_below_pow2(m: nat)
    ensures
        m < pow2(m),
    decreases m,
{
    if m > 0 {
        lemma_below_pow2((m - 1) as nat);
        lemma_pow2_unfold(m);
    } else {
        lemma2_to64();
    }
}

fn copy_list(v: &Vec<usize>) -> (r: Vec<usize>)
    ensures
        r@ == v@,
{
    let mut r: Vec<usize> = Vec::new();
    let mut t: usize = 0;
    while t < v.len()
        invariant
            t <= v.len(),
            r@ == v@.subrange(0, t as int),
        decreases v.len() - t,
    {
        r.push(v[t]);
        t = t + 1;
        assert(r@ =~= v@.subrange(0, t as int));
    }
    assert(r@ =~= v@);
    r
}

fn monomial_indicator(mono: &Vec<usize>, point: &Vec<u8>) -> (r: bool)
    ensures
        r == (indicator(mono@, point@) == 1),
{
    let mut t: usize = 0;
    while t < mono.len()
        invariant
            t <= mono.len(),
            forall|s: int| 0 <= s < t ==> mono@[s] < point@.len() && point@[mono@[s] as int] == 1,
        decreases mono.len() - t,
    {
        let var: usize = mono[t];
        if var >= point.len() || point[var] != 1 {
            return false;
        }
        t = t + 1;
    }
    true
}

fn evaluation_rows(
    monos: &Vec<Vec<usize>>,
    points: &Vec<Vec<u8>>,
    modulus: u128,
) -> (rows: Vec<Vec<FieldElement>>)
    requires
        1 < modulus,
    ensures
        is_evaluation_matrix(rows@, nested_view(monos@), nested_view(points@), modulus as nat),
{
    let mut rows: Vec<Vec<FieldElement>> = Vec::new();
    let mut i: usize = 0;
    while i < monos.len()
        invariant
            1 < modulus,
            i <= monos.len(),
            is_evaluation_matrix(
                rows@,
                nested_view(monos@).subrange(0, i as int),
                nested_view(points@),
                modulus as nat,
            ),
        decreases monos.len() - i,
    {
        let mut row: Vec<FieldElement> = Vec::new();
        let mut j: usize = 0;
        while j < points.len()
            invariant
                1 < modulus,
                i < monos.len(),
                j <= points.len(),
                row@.len() == j,
                forall|c: int|
                    0 <= c < j ==> {
                        let e = #[trigger] row@[c];
                        e.wf() && e.modu() == modulus && e.val() == indicator(
                            monos@[i as int]@,
                            points@[c]@,
                        )
                    },
            decreases points.len() - j,
        {
            let bit: u128 = if monomial_indicator(&monos[i], &points[j]) {
                1
            } else {
                0
            };
            row.push(FieldElement::new(bit, modulus).unwrap());
            j = j + 1;
        }
        let ghost before = rows@;
        rows.push(row);
        i = i + 1;
        proof {
            let ms = nested_view(monos@).subrange(0, i as int);
            assert forall|a: int, c: int|
                0 <= a < rows@.len() && 0 <= c < nested_view(points@).len() implies {
                let e = #[trigger] rows@[a]@[c];
                e.wf() && e.modu() == modulus as nat && e.val() == indicator(
                    ms[a],
                    nested_view(points@)[c],
                )
            } by {
                if a < i - 1 {
                    assert(rows@[a] == before[a]);
                    let e = before[a]@[c];
                    assert(e.wf());
                }
            }
        }
    }
    assert(nested_view(monos@).subrange(0, i as int) =~= nested_view(monos@));
    rows
}

/// The views of a run of point lists.
pub open spec fn subspaces_view(v: Seq<Vec<Vec<u8>>>) -> Seq<Seq<Seq<u8>>> {
    Seq::new(v.len(), |s: int| nested_view(v[s]@))
}

/// The standard basis vector of variable `i`.
pub open spec fn unit_vector(m: nat, i: nat) -> Seq<u8> {
    Seq::new(m, |v: int| if v == i { 1u8 } else { 0u8 })
}

/// The basis vectors of the variables of a selection.
pub open spec fn basis_of(m: nat, selection: Seq<usize>) -> Seq<Seq<u8>> {
    Seq::new(selection.len(), |t: int| unit_vector(m, selection[t] as nat))
}

/// Coordinate-wise sum of two points over the two-element field.
pub open spec fn xor_points(a: Seq<u8>, b: Seq<u8>) -> Seq<u8> {
    Seq::new(a.len(), |v: int| a[v] ^ b[v])
}

/// The combination of the first `upto` basis vectors whose coefficients
/// are the bits of `x`.
pub open spec fn span_point(basis: Seq<Seq<u8>>, x: nat, m: nat, upto: nat) -> Seq<u8>
    decreases upto,
{
    if upto == 0 {
        Seq::new(m, |v: int| 0u8)
    } else {
        let prev = span_point(basis, x, m, (upto - 1) as nat);
        if bit_of(x, (upto - 1) as nat) {
            xor_points(prev, basis[upto - 1])
        } else {
            prev
        }
    }
}

/// All combinations of a basis.
pub open spec fn span(basis: Seq<Seq<u8>>, m: nat) -> Seq<Seq<u8>> {
    Seq::new(pow2(basis.len()), |x: int| span_point(basis, x as nat, m, basis.len()))
}

/// The coordinate subspaces of dimension `d`, one per selection of `d`
/// variables.
pub open spec fn subspaces(m: usize, d: nat) -> Seq<Seq<Seq<u8>>> {
    Seq::new(combos(m, d, 0).len(), |s: int| span(basis_of(m as nat, combos(m, d, 0)[s]), m as nat))
}

/// The number whose bits are the first `upto` coordinates of `point`.
pub open spec fn point_index(point: Seq<u8>, upto: nat) -> nat
    decreases upto,
{
    if upto == 0 {
        0
    } else {
        point_index(point, (upto - 1) as nat) + if point[upto - 1] == 1 {
            pow2((upto - 1) as nat)
        } else {
            0
        }
    }
}

/// Sum of the received values at the first `upto` points of a subspace.
pub open spec fn subspace_sum(
    received: Seq<FieldElement>,
    subspace: Seq<Seq<u8>>,
    upto: nat,
    p: nat,
) -> nat
    decreases upto,
{
    if upto == 0 {
        0
    } else {
        add_mod(
            subspace_sum(received, subspace, (upto - 1) as nat, p),
            received[point_index(subspace[upto - 1], subspace[upto - 1].len()) as int].val(),
            p,
        )
    }
}

/// How many of the first `upto` subspaces sum to more than half the
/// modulus.
pub open spec fn votes_above(
    received: Seq<FieldElement>,
    subs: Seq<Seq<Seq<u8>>>,
    upto: nat,
    p: nat,
) -> nat
    decreases upto,
{
    if upto == 0 {
        0
    } else {
        votes_above(received, subs, (upto - 1) as nat, p) + if subspace_sum(
            received,
            subs[upto - 1],
            subs[upto - 1].len(),
            p,
        ) > p / 2 {
            1nat
        } else {
            0nat
        }
    }
}

/// Whether most subspaces of dimension `d` vote above.
pub open spec fn level_vote(received: Seq<FieldElement>, m: usize, d: nat, p: nat) -> bool {
    2 * votes_above(received, subspaces(m, d), subspaces(m, d).len(), p) > subspaces(m, d).len()
}

/// Every selection of `k` variables has `k` entries.
pub proof fn lemma_combos_entry_len(n: usize, k: nat, start: usize, idx: int)
    requires
        0 <= idx < combos(n, k, start).len(),
    ensures
        combos(n, k, start)[idx].len() == k,
    decreases n - start,
{
    if k != 0 && start < n {
        let a = combos(n, (k - 1) as nat, (start + 1) as usize);
        if idx < a.len() {
            lemma_combos_entry_len(n, (k - 1) as nat, (start + 1) as usize, idx);
        } else {
            lemma_combos_entry_len(n, k, (start + 1) as usize, idx - a.len());
        }
    }
}

fn xor_into(a: &Vec<u8>, b: &Vec<u8>) -> (r: Vec<u8>)
    requires
        a@.len() == b@.len(),
    ensures
        r@ == xor_points(a@, b@),
{
    let mut r: Vec<u8> = Vec::new();
    let mut v: usize = 0;
    while v < a.len()
        invariant
            v <= a.len(),
            a@.len() == b@.len(),
            r@.len() == v,
            forall|c: int| 0 <= c < v ==> r@[c] == a@[c] ^ b@[c],
        decreases a.len() - v,
    {
        r.push(a[v] ^ b[v]);
        v = v + 1;
    }
    assert(r@ =~= xor_points(a@, b@));
    r
}

fn power_of_two(e: usize) -> (r: usize)
    requires
        pow2(e as nat) <= usize::MAX,
    ensures
        r == pow2(e as nat),
{
    let mut n: usize = 1;
    let mut i: usize = 0;
    proof {
        lemma2_to64();
    }
    while i < e
        invariant
            i <= e,
            n == pow2(i as nat),
            pow2(e as nat) <= usize::MAX,
        decreases e - i,
    {
        proof {
            lemma_pow2_unfold((i + 1) as nat);
            if i + 1 < e {
                lemma_pow2_strictly_increases((i + 1) as nat, e as nat);
            }
        }
        n = n * 2;
        i = i + 1;
    }
    n
}

/// A Reed-Muller code over the boolean hypercube, with its matrices over a
/// prime field.
pub struct ReedMullerCode {
    pub degree: usize,
    pub variables: usize,
    pub n: usize,
    pub k: usize,
    pub modulus: u128,
    pub generator_matrix: Vec<Vec<FieldElement>>,
    pub parity_check_matrix: Vec<Vec<FieldElement>>,
    pub evaluation_points: Vec<Vec<u8>>,
}

impl ReedMullerCode {
    /// Lengths, points and both matrices are those of the code of this
    /// degree over this many variables.
    pub open spec fn wf(self) -> bool {
        &&& 1 < self.modulus
        &&& self.n == pow2(self.variables as nat)
        &&& self.k == dimension(self.degree as nat, self.variables as nat)
        &&& self.k == self.generator_matrix@.len()
        &&& nested_view(self.evaluation_points@) == hypercube(self.variables as nat)
        &&& is_evaluation_matrix(
            self.generator_matrix@,
            monomials(self.variables, 0, (self.degree + 1) as nat),
            hypercube(self.variables as nat),
            self.modulus as nat,
        )
        &&& is_evaluation_matrix(
            self.parity_check_matrix@,
            monomials(
                self.variables,
                (self.degree + 1) as nat,
                if self.degree < self.variables {
                    (self.variables - self.degree) as nat
                } else {
                    0
                },
            ),
            hypercube(self.variables as nat),
            self.modulus as nat,
        )
    }

    /// The generator and parity-check matrices together have one row per
    /// point.
    pub proof fn lemma_matrix_rows(self)
        requires
            self.wf(),
        ensures
            self.k <= self.n,
            self.generator_matrix@.len() == self.k,
            self.parity_check_matrix@.len() == self.n - self.k,
    {
        let m = self.variables;
        let r = self.degree as nat;
        lemma_dimension_full(m as nat);
        if r < m {
            lemma_monomials_split(m, r + 1, (m - r) as nat);
            lemma_monomials_len(m, r);
            lemma_monomials_len(m, m as nat);
        } else {
            lemma_dimension_cap(r, m as nat);
            assert(monomials(m, r + 1, 0).len() == 0);
        }
    }

    /// Entry `j` of the encoding of `message`, summed over the first `rows`
    /// rows of the generator matrix.
    pub open spec fn column_sum(self, message: Seq<FieldElement>, j: int, rows: nat) -> nat
        decreases rows,
    {
        if rows == 0 {
            0
        } else {
            add_mod(
                self.column_sum(message, j, (rows - 1) as nat),
                mul_mod(
                    message[rows - 1].val(),
                    self.generator_matrix@[rows - 1]@[j].val(),
                    self.modulus as nat,
                ),
                self.modulus as nat,
            )
        }
    }

    /// The selections of `k` out of `n` variables, each in increasing
    /// order.
    pub fn generate_combinations(n: usize, k: usize) -> (r: Vec<Vec<usize>>)
        ensures
            nested_view(r@) == combos(n, k as nat, 0),
    {
        Self::combinations_helper(n, k, 0)
    }

    /// The selections of `k` variables out of `start..n`.
    pub fn combinations_helper(n: usize, k: usize, start: usize) -> (r: Vec<Vec<usize>>)
        ensures
            nested_view(r@) == combos(n, k as nat, start),
        decreases n - start,
    {
        let mut result: Vec<Vec<usize>> = Vec::new();
        if k == 0 {
            result.push(Vec::new());
            assert(nested_view(result@) =~= seq![Seq::<usize>::empty()]);
            return result;
        }
        if start >= n {
            assert(nested_view(result@) =~= Seq::<Seq<usize>>::empty());
            return result;
        }
        let with = Self::combinations_helper(n, k - 1, start + 1);
        let without = Self::combinations_helper(n, k, start + 1);
        let mut i: usize = 0;
        while i < with.len()
            invariant
                i <= with.len(),
                result@.len() == i,
                forall|j: int| 0 <= j < i ==> (#[trigger] result@[j])@ == seq![start] + with@[j]@,
            decreases with.len() - i,
        {
            let src = &with[i];
            let mut c: Vec<usize> = Vec::new();
            c.push(start);
            let mut t: usize = 0;
            while t < src.len()
                invariant
                    t <= src.len(),
                    c@ == seq![start] + src@.subrange(0, t as int),
                decreases src.len() - t,
            {
                c.push(src[t]);
                t = t + 1;
                assert(c@ =~= seq![start] + src@.subrange(0, t as int));
            }
            assert(src@.subrange(0, t as int) =~= src@);
            result.push(c);
            i = i + 1;
        }
        let mut i: usize = 0;
        while i < without.len()
            invariant
                i <= without.len(),
                result@.len() == with.len() + i,
                forall|j: int|
                    0 <= j < with.len() ==> (#[trigger] result@[j])@ == seq![start] + with@[j]@,
                forall|j: int|
                    0 <= j < i ==> (#[trigger] result@[with.len() + j])@ == without@[j]@,
            decreases without.len() - i,
        {
            result.push(copy_list(&without[i]));
            i = i + 1;
        }
        proof {
            let a = nested_view(with@);
            let b = nested_view(without@);
            let expect = a.map_values(|c: Seq<usize>| seq![start] + c) + b;
            assert(nested_view(result@).len() == expect.len());
            assert forall|j: int| 0 <= j < expect.len() implies nested_view(result@)[j]
                == expect[j] by {
                if j >= with.len() {
                    assert(result@[with.len() + (j - with.len())]@ == without@[j - with.len()]@);
                }
            }
            assert(nested_view(result@) =~= expect);
        }
        result
    }

    fn generate_monomials(m: usize, lo: usize, count: usize) -> (r: Vec<Vec<usize>>)
        requires
            lo + count <= usize::MAX,
        ensures
            nested_view(r@) == monomials(m, lo as nat, count as nat),
    {
        let mut result: Vec<Vec<usize>> = Vec::new();
        let mut c: usize = 0;
        assert(nested_view(result@) =~= monomials(m, lo as nat, 0));
        while c < count
            invariant
                c <= count,
                lo + count <= usize::MAX,
                nested_view(result@) == monomials(m, lo as nat, c as nat),
            decreases count - c,
        {
            let level = Self::generate_combinations(m, lo + c);
            let ghost before = nested_view(result@);
            let mut i: usize = 0;
            while i < level.len()
                invariant
                    i <= level.len(),
                    nested_view(result@) == before + nested_view(level@).subrange(0, i as int),
                decreases level.len() - i,
            {
                let ghost prev = nested_view(result@);
                result.push(copy_list(&level[i]));
                assert(nested_view(result@) =~= prev.push(level@[i as int]@));
                i = i + 1;
                assert(nested_view(level@).subrange(0, i as int) =~= nested_view(level@).subrange(
                    0,
                    i - 1,
                ).push(level@[i - 1]@));
                assert(nested_view(result@) =~= before + nested_view(level@).subrange(
                    0,
                    i as int,
                ));
            }
            assert(nested_view(level@).subrange(0, i as int) =~= nested_view(level@));
            c = c + 1;
        }
        result
    }

    /// The hypercube's points, point `j` holding the bits of `j`.
    pub fn generate_evaluation_points(variables: usize, n: usize) -> (r: Vec<Vec<u8>>)
        requires
            n == pow2(variables as nat),
        ensures
            nested_view(r@) == hypercube(variables as nat),
    {
        let mut points: Vec<Vec<u8>> = Vec::new();
        let mut j: usize = 0;
        while j < n
            invariant
                j <= n,
                n == pow2(variables as nat),
                points@.len() == j,
                forall|a: int| 0 <= a < j ==> (#[trigger] points@[a])@ == hypercube(variables as nat)[a],
            decreases n - j,
        {
            let mut point: Vec<u8> = Vec::new();
            let mut rest: usize = j;
            let mut v: usize = 0;
            proof {
                lemma2_to64();
            }
            while v < variables
                invariant
                    v <= variables,
                    rest == j as nat / pow2(v as nat),
                    point@.len() == v,
                    forall|b: int|
                        0 <= b < v ==> #[trigger] point@[b] == if bit_of(j as nat, b as nat) {
                            1u8
                        } else {
                            0u8
                        },
                decreases variables - v,
            {
                let bit: u8 = if rest % 2 == 1 {
                    1
                } else {
                    0
                };
                point.push(bit);
                proof {
                    lemma_pow2_pos(v as nat);
                    lemma_pow2_unfold((v + 1) as nat);
                    lemma_div_denominator(j as int, pow2(v as nat) as int, 2);
                    assert(pow2(v as nat) * 2 == pow2((v + 1) as nat));
                }
                rest = rest / 2;
                v = v + 1;
            }
            assert(point@ =~= hypercube(variables as nat)[j as int]);
            points.push(point);
            j = j + 1;
        }
        assert(nested_view(points@) =~= hypercube(variables as nat));
        points
    }

    /// Rows for the monomials of degree at most `degree`.
    pub fn generate_generator_matrix(
        degree: usize,
        variables: usize,
        evaluation_points: &Vec<Vec<u8>>,
        modulus: u128,
    ) -> (rows: Vec<Vec<FieldElement>>)
        requires
            1 < modulus,
            variables < usize::MAX,
        ensures
            is_evaluation_matrix(
                rows@,
                monomials(variables, 0, (degree + 1) as nat),
                nested_view(evaluation_points@),
                modulus as nat,
            ),
    {
        let count: usize = if degree < variables {
            degree + 1
        } else {
            variables + 1
        };
        let monos = Self::generate_monomials(variables, 0, count);
        proof {
            if degree >= variables {
                lemma_monomials_cap(variables, 0, (degree + 1) as nat);
            }
        }
        evaluation_rows(&monos, evaluation_points, modulus)
    }

    /// Rows for the monomials of degree above `degree`.
    pub fn generate_parity_check_matrix(
        degree: usize,
        variables: usize,
        evaluation_points: &Vec<Vec<u8>>,
        modulus: u128,
    ) -> (rows: Vec<Vec<FieldElement>>)
        requires
            1 < modulus,
            variables < usize::MAX,
        ensures
            is_evaluation_matrix(
                rows@,
                monomials(
                    variables,
                    (degree + 1) as nat,
                    if degree < variables {
                        (variables - degree) as nat
                    } else {
                        0
                    },
                ),
                nested_view(evaluation_points@),
                modulus as nat,
            ),
    {
        let monos = if degree < variables {
            Self::generate_monomials(variables, degree + 1, variables - degree)
        } else {
            Self::generate_monomials(variables, 0, 0)
        };
        evaluation_rows(&monos, evaluation_points, modulus)
    }

    /// The code of degree `degree` over `variables` boolean variables, with
    /// matrix entries modulo `modulus`.
    pub fn new(degree: usize, variables: usize, modulus: u128) -> (c: Self)
        requires
            1 < modulus,
            pow2(variables as nat) <= usize::MAX,
        ensures
            c.wf(),
            c.degree == degree,
            c.variables == variables,
            c.modulus == modulus,
    {
        let n: usize = power_of_two(variables);
        proof {
            lemma_below_pow2(variables as nat);
        }
        let evaluation_points = Self::generate_evaluation_points(variables, n);
        let generator_matrix = Self::generate_generator_matrix(
            degree,
            variables,
            &evaluation_points,
            modulus,
        );
        let parity_check_matrix = Self::generate_parity_check_matrix(
            degree,
            variables,
            &evaluation_points,
            modulus,
        );
        let k: usize = generator_matrix.len();
        proof {
            lemma_monomials_len(variables, degree as nat);
        }
        ReedMullerCode {
            degree,
            variables,
            n,
            k,
            modulus,
            generator_matrix,
            parity_check_matrix,
            evaluation_points,
        }
    }

    /// The message times the generator matrix.
    pub fn encode(&self, message: Vec<FieldElement>) -> (codeword: Vec<FieldElement>)
        requires
            self.wf(),
            message@.len() == self.k,
            all_in_field(message@, self.modulus as nat),
        ensures
            codeword@.len() == self.n,
            all_in_field(codeword@, self.modulus as nat),
            forall|j: int|
                0 <= j < self.n ==> (#[trigger] codeword@[j]).val() == self.column_sum(
                    message@,
                    j,
                    self.k as nat,
                ),
    {
        let mut codeword: Vec<FieldElement> = Vec::new();
        let mut j: usize = 0;
        while j < self.n
            invariant
                self.wf(),
                message@.len() == self.k,
                all_in_field(message@, self.modulus as nat),
                j <= self.n,
                codeword@.len() == j,
                all_in_field(codeword@, self.modulus as nat),
                forall|c: int|
                    0 <= c < j ==> (#[trigger] codeword@[c]).val() == self.column_sum(
                        message@,
                        c,
                        self.k as nat,
                    ),
            decreases self.n - j,
        {
            let mut sum = FieldElement::new(0, self.modulus).unwrap();
            let mut i: usize = 0;
            while i < self.k
                invariant
                    self.wf(),
                    message@.len() == self.k,
                    all_in_field(message@, self.modulus as nat),
                    j < self.n,
                    i <= self.k,
                    sum.wf(),
                    sum.modu() == self.modulus,
                    sum.val() == self.column_sum(message@, j as int, i as nat),
                decreases self.k - i,
            {
                let g = self.generator_matrix[i][j];
                assert(g == self.generator_matrix@[i as int]@[j as int]);
                assert(g.wf() && g.modu() == self.modulus);
                sum = sum.add(message[i].mul(g));
                i = i + 1;
            }
            codeword.push(sum);
            j = j + 1;
        }
        codeword
    }
    /// The standard basis vectors of the variables of `selection`.
    pub fn generate_basis_vectors(&self, selection: &Vec<usize>) -> (r: Vec<Vec<u8>>)
        ensures
            nested_view(r@) == basis_of(self.variables as nat, selection@),
    {
        let mut basis: Vec<Vec<u8>> = Vec::new();
        let mut t: usize = 0;
        while t < selection.len()
            invariant
                t <= selection.len(),
                basis@.len() == t,
                forall|a: int|
                    0 <= a < t ==> (#[trigger] basis@[a])@ == unit_vector(
                        self.variables as nat,
                        selection@[a] as nat,
                    ),
            decreases selection.len() - t,
        {
            let mut vector: Vec<u8> = Vec::new();
            let mut v: usize = 0;
            while v < self.variables
                invariant
                    t < selection.len(),
                    v <= self.variables,
                    vector@.len() == v,
                    forall|c: int|
                        0 <= c < v ==> vector@[c] == if c == selection@[t as int] {
                            1u8
                        } else {
                            0u8
                        },
                decreases self.variables - v,
            {
                let entry: u8 = if v == selection[t] {
                    1
                } else {
                    0
                };
                vector.push(entry);
                v = v + 1;
            }
            assert(vector@ =~= unit_vector(self.variables as nat, selection@[t as int] as nat));
            basis.push(vector);
            t = t + 1;
        }
        assert(nested_view(basis@) =~= basis_of(self.variables as nat, selection@));
        basis
    }

    /// Every combination of the basis vectors, the combination with
    /// coefficient bits `x` at position `x`.
    pub fn generate_subspace_from_basis(&self, basis: &Vec<Vec<u8>>) -> (r: Vec<Vec<u8>>)
        requires
            pow2(basis@.len()) <= usize::MAX,
            forall|t: int| 0 <= t < basis@.len() ==> (#[trigger] basis@[t])@.len() == self.variables,
        ensures
            nested_view(r@) == span(nested_view(basis@), self.variables as nat),
            forall|x: int| 0 <= x < r@.len() ==> (#[trigger] r@[x])@.len() == self.variables,
    {
        let count: usize = power_of_two(basis.len());
        let ghost bv = nested_view(basis@);
        let ghost m = self.variables as nat;
        let mut subspace: Vec<Vec<u8>> = Vec::new();
        let mut x: usize = 0;
        while x < count
            invariant
                x <= count,
                count == pow2(basis@.len()),
                bv == nested_view(basis@),
                m == self.variables,
                forall|t: int|
                    0 <= t < basis@.len() ==> (#[trigger] basis@[t])@.len() == self.variables,
                subspace@.len() == x,
                forall|a: int|
                    0 <= a < x ==> (#[trigger] subspace@[a])@ == span_point(
                        bv,
                        a as nat,
                        m,
                        bv.len(),
                    ) && subspace@[a]@.len() == m,
            decreases count - x,
        {
            let mut point: Vec<u8> = Vec::new();
            let mut v: usize = 0;
            while v < self.variables
                invariant
                    v <= self.variables,
                    point@ == Seq::new(v as nat, |c: int| 0u8),
                decreases self.variables - v,
            {
                point.push(0);
                v = v + 1;
                assert(point@ =~= Seq::new(v as nat, |c: int| 0u8));
            }
            let mut rest: usize = x;
            let mut t: usize = 0;
            proof {
                lemma2_to64();
            }
            while t < basis.len()
                invariant
                    t <= basis.len(),
                    bv == nested_view(basis@),
                    m == self.variables,
                    forall|t: int|
                        0 <= t < basis@.len() ==> (#[trigger] basis@[t])@.len() == self.variables,
                    rest == x as nat / pow2(t as nat),
                    point@.len() == m,
                    point@ == span_point(bv, x as nat, m, t as nat),
                decreases basis.len() - t,
            {
                proof {
                    lemma_pow2_pos(t as nat);
                    lemma_pow2_unfold((t + 1) as nat);
                    lemma_div_denominator(x as int, pow2(t as nat) as int, 2);
                    assert(pow2(t as nat) * 2 == pow2((t + 1) as nat));
                    assert(bv[t as int] == basis@[t as int]@);
                }
                if rest % 2 == 1 {
                    point = xor_into(&point, &basis[t]);
                }
                rest = rest / 2;
                t = t + 1;
            }
            subspace.push(point);
            x = x + 1;
        }
        assert(nested_view(subspace@) =~= span(bv, m));
        subspace
    }

    /// The coordinate subspaces of the given dimension.
    pub fn generate_subspaces(&self, dimension: usize) -> (r: Vec<Vec<Vec<u8>>>)
        requires
            dimension <= self.variables,
            pow2(self.variables as nat) <= usize::MAX,
        ensures
            subspaces_view(r@) == subspaces(self.variables, dimension as nat),
            forall|s: int, x: int|
                0 <= s < r@.len() && 0 <= x < r@[s]@.len() ==> (#[trigger] r@[s]@[x])@.len()
                    == self.variables,
    {
        let selections = Self::generate_combinations(self.variables, dimension);
        let mut result: Vec<Vec<Vec<u8>>> = Vec::new();
        let mut s: usize = 0;
        proof {
            if dimension < self.variables {
                lemma_pow2_strictly_increases(dimension as nat, self.variables as nat);
            }
        }
        while s < selections.len()
            invariant
                s <= selections.len(),
                pow2(dimension as nat) <= usize::MAX,
                nested_view(selections@) == combos(self.variables, dimension as nat, 0),
                result@.len() == s,
                forall|a: int|
                    0 <= a < s ==> nested_view((#[trigger] result@[a])@) == span(
                        basis_of(self.variables as nat, selections@[a]@),
                        self.variables as nat,
                    ),
                forall|a: int, x: int|
                    0 <= a < s && 0 <= x < result@[a]@.len() ==> (#[trigger] result@[a]@[x])@.len()
                        == self.variables,
            decreases selections.len() - s,
        {
            let basis = self.generate_basis_vectors(&selections[s]);
            proof {
                lemma_combos_entry_len(self.variables, dimension as nat, 0, s as int);
                assert(nested_view(selections@)[s as int] == selections@[s as int]@);
                assert(nested_view(basis@).len() == basis@.len());
                assert forall|t: int| 0 <= t < basis@.len() implies (#[trigger] basis@[t])@.len()
                    == self.variables by {
                    assert(nested_view(basis@)[t] == basis@[t]@);
                }
            }
            let subspace = self.generate_subspace_from_basis(&basis);
            result.push(subspace);
            s = s + 1;
        }
        proof {
            let want = subspaces(self.variables, dimension as nat);
            assert(subspaces_view(result@).len() == want.len());
            assert forall|a: int| 0 <= a < want.len() implies subspaces_view(result@)[a]
                == want[a] by {
                assert(nested_view(selections@)[a] == selections@[a]@);
            }
            assert(subspaces_view(result@) =~= want);
        }
        result
    }

    /// The position of a point in the hypercube's enumeration.
    pub fn point_to_index(&self, point: &Vec<u8>) -> (idx: usize)
        requires
            pow2(point@.len()) <= usize::MAX,
        ensures
            idx == point_index(point@, point@.len()),
            idx < pow2(point@.len()),
    {
        let mut idx: usize = 0;
        let mut weight: usize = 1;
        let mut i: usize = 0;
        proof {
            lemma2_to64();
        }
        while i < point.len()
            invariant
                i <= point.len(),
                pow2(point@.len()) <= usize::MAX,
                i < point.len() ==> weight == pow2(i as nat),
                idx == point_index(point@, i as nat),
                idx < pow2(i as nat),
            decreases point.len() - i,
        {
            proof {
                lemma_pow2_unfold((i + 1) as nat);
                if i + 1 < point.len() {
                    lemma_pow2_strictly_increases((i + 1) as nat, point@.len());
                }
            }
            if point[i] == 1 {
                idx = idx + weight;
            }
            i = i + 1;
            if i < point.len() {
                weight = weight * 2;
            }
        }
        idx
    }

    /// Sum of the received values over the points of a subspace.
    pub fn evaluate_on_subspace(
        &self,
        received: &Vec<FieldElement>,
        subspace: &Vec<Vec<u8>>,
    ) -> (sum: FieldElement)
        requires
            self.wf(),
            received@.len() == self.n,
            all_in_field(received@, self.modulus as nat),
            forall|x: int|
                0 <= x < subspace@.len() ==> (#[trigger] subspace@[x])@.len() == self.variables,
        ensures
            sum.wf(),
            sum.modu() == self.modulus,
            sum.val() == subspace_sum(
                received@,
                nested_view(subspace@),
                subspace@.len(),
                self.modulus as nat,
            ),
    {
        let mut sum = FieldElement::new(0, self.modulus).unwrap();
        let mut x: usize = 0;
        while x < subspace.len()
            invariant
                self.wf(),
                pow2(self.variables as nat) <= usize::MAX,
                received@.len() == self.n,
                all_in_field(received@, self.modulus as nat),
                forall|x: int|
                    0 <= x < subspace@.len() ==> (#[trigger] subspace@[x])@.len()
                        == self.variables,
                x <= subspace.len(),
                sum.wf(),
                sum.modu() == self.modulus,
                sum.val() == subspace_sum(
                    received@,
                    nested_view(subspace@),
                    x as nat,
                    self.modulus as nat,
                ),
            decreases subspace.len() - x,
        {
            let idx = self.point_to_index(&subspace[x]);
            assert(nested_view(subspace@)[x as int] == subspace@[x as int]@);
            sum = sum.add(received[idx]);
            x = x + 1;
        }
        sum
    }

    /// Reference majority-logic decoder. The levels run from the code's
    /// degree down to zero; at each level every coordinate subspace of that
    /// dimension votes by whether its sum exceeds half the modulus, and the
    /// majority sets every coordinate. What is returned is therefore the
    /// vote of the last level, dimension zero.
    pub fn decode(&self, received: Vec<FieldElement>) -> (decoded: Vec<FieldElement>)
        requires
            self.wf(),
            received@.len() == self.n,
            all_in_field(received@, self.modulus as nat),
        ensures
            decoded@.len() == self.k,
            all_in_field(decoded@, self.modulus as nat),
            forall|j: int|
                0 <= j < self.k ==> (#[trigger] decoded@[j]).val() == if level_vote(
                    received@,
                    self.variables,
                    0,
                    self.modulus as nat,
                ) {
                    1nat
                } else {
                    0nat
                },
    {
        let p: u128 = self.modulus;
        let top: usize = if self.degree < self.variables {
            self.degree
        } else {
            self.variables
        };
        let mut vote: bool = false;
        let mut level: usize = top;
        let mut done: bool = false;
        while !done
            invariant
                self.wf(),
                p == self.modulus,
                pow2(self.variables as nat) <= usize::MAX,
                received@.len() == self.n,
                all_in_field(received@, self.modulus as nat),
                level <= self.variables,
                done ==> level == 0 && vote == level_vote(received@, self.variables, 0, p as nat),
            decreases level + if done { 0int } else { 1int },
        {
            let subs = self.generate_subspaces(level);
            let mut above: usize = 0;
            let mut s: usize = 0;
            while s < subs.len()
                invariant
                    self.wf(),
                    p == self.modulus,
                    pow2(self.variables as nat) <= usize::MAX,
                    received@.len() == self.n,
                    all_in_field(received@, self.modulus as nat),
                    forall|a: int, x: int|
                        0 <= a < subs@.len() && 0 <= x < subs@[a]@.len() ==> (
                        #[trigger] subs@[a]@[x])@.len() == self.variables,
                    s <= subs.len(),
                    above <= s,
                    above == votes_above(received@, subspaces_view(subs@), s as nat, p as nat),
                decreases subs.len() - s,
            {
                let eval = self.evaluate_on_subspace(&received, &subs[s]);
                assert(subspaces_view(subs@)[s as int] == nested_view(subs@[s as int]@));
                assert(nested_view(subs@[s as int]@).len() == subs@[s as int]@.len());
                if eval.value() > p / 2 {
                    above = above + 1;
                }
                s = s + 1;
            }
            vote = above > subs.len() - above;
            if level == 0 {
                done = true;
            } else {
                level = level - 1;
            }
        }
        let bit: u128 = if vote {
            1
        } else {
            0
        };
        let mut decoded: Vec<FieldElement> = Vec::new();
        let mut j: usize = 0;
        while j < self.k
            invariant
                1 < p,
                p == self.modulus,
                bit < 2,
                j <= self.k,
                decoded@.len() == j,
                forall|c: int|
                    0 <= c < j ==> (#[trigger] decoded@[c]).wf() && decoded@[c].modu() == p
                        && decoded@[c].val() == bit,
            decreases self.k - j,
        {
            decoded.push(FieldElement::new(bit, p).unwrap());
            j = j + 1;
        }
        decoded
    }
}

} // verus!