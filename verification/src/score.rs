use vstd::prelude::*;

verus! {

/// The sum of the products of the first `n` components of `a` and `b`.
pub open spec fn dot_upto(a: Seq<i16>, b: Seq<i16>, n: int) -> int
    decreases n,
{
    if n <= 0 {
        0
    } else {
        dot_upto(a, b, n - 1) + a[n - 1] * b[n - 1]
    }
}

/// The dot product of two vectors of one length.
pub open spec fn dot(a: Seq<i16>, b: Seq<i16>) -> int {
    dot_upto(a, b, a.len() as int)
}

/// The square of the Euclidean norm of a vector.
pub open spec fn norm_sq(a: Seq<i16>) -> int {
    dot(a, a)
}

/// The largest number of components for which every dot product fits.
pub open spec fn max_len() -> int {
    u32::MAX as int
}

/// A dot product is bounded by the number of components.
pub proof fn lemma_dot_bound(a: Seq<i16>, b: Seq<i16>, n: int)
    requires
        0 <= n <= a.len(),
        n <= b.len(),
    ensures
        -n * 0x4000_0000 <= dot_upto(a, b, n) <= n * 0x4000_0000,
    decreases n,
{
    if n > 0 {
        lemma_dot_bound(a, b, n - 1);
        let x = a[n - 1] as int;
        let y = b[n - 1] as int;
        assert(-0x4000_0000 <= x * y <= 0x4000_0000) by (nonlinear_arith)
            requires
                -0x8000 <= x <= 0x7fff,
                -0x8000 <= y <= 0x7fff,
        ;
    }
}

/// A squared norm is not negative.
pub proof fn lemma_norm_nonnegative(a: Seq<i16>, n: int)
    requires
        0 <= n <= a.len(),
    ensures
        0 <= dot_upto(a, a, n),
    decreases n,
{
    if n > 0 {
        lemma_norm_nonnegative(a, n - 1);
        let x = a[n - 1] as int;
        assert(0 <= x * x) by (nonlinear_arith);
    }
}

/// The inequality of Cauchy and Schwarz: the square of a dot product is at
/// most the product of the squared norms.
pub proof fn lemma_cauchy_schwarz(a: Seq<i16>, b: Seq<i16>, n: int)
    requires
        0 <= n <= a.len(),
        n <= b.len(),
    ensures
        dot_upto(a, b, n) * dot_upto(a, b, n) <= dot_upto(a, a, n) * dot_upto(b, b, n),
    decreases n,
{
    if n <= 0 {
        assert(dot_upto(a, b, n) * dot_upto(a, b, n) == 0) by (nonlinear_arith)
            requires
                dot_upto(a, b, n) == 0,
        ;
        assert(dot_upto(a, a, n) * dot_upto(b, b, n) == 0) by (nonlinear_arith)
            requires
                dot_upto(a, a, n) == 0,
        ;
    } else {
        lemma_cauchy_schwarz(a, b, n - 1);
        lemma_norm_nonnegative(a, n - 1);
        lemma_norm_nonnegative(b, n - 1);
        let d = dot_upto(a, b, n - 1);
        let p = dot_upto(a, a, n - 1);
        let q = dot_upto(b, b, n - 1);
        let x = a[n - 1] as int;
        let y = b[n - 1] as int;
        lemma_step(d, p, q, x, y);
    }
}

/// Products of four factors can be regrouped.
proof fn lemma_regroup(a: int, b: int, c: int, d: int)
    ensures
        (a * b) * (c * d) == (a * c) * (b * d),
        (a * b) * (c * d) == a * (c * (b * d)),
{
    assert((a * b) * (c * d) == (a * c) * (b * d)) by (nonlinear_arith);
    assert((a * c) * (b * d) == a * (c * (b * d))) by (nonlinear_arith);
}

/// One step of the induction behind [`lemma_cauchy_schwarz`].
proof fn lemma_step(d: int, p: int, q: int, x: int, y: int)
    requires
        d * d <= p * q,
        0 <= p,
        0 <= q,
    ensures
        (d + x * y) * (d + x * y) <= (p + x * x) * (q + y * y),
{
    let xx = x * x;
    let yy = y * y;
    let xy = x * y;
    let pq = p * q;
    let dd = d * d;
    let rest = p * yy + q * xx - 2 * (d * xy);
    assert(0 <= xx) by (nonlinear_arith)
        requires
            xx == x * x,
    ;
    assert(0 <= rest) by {
        if p == 0 {
            assert(d == 0) by (nonlinear_arith)
                requires
                    d * d <= p * q,
                    p == 0,
            ;
            assert(p * yy == 0 && d * xy == 0) by (nonlinear_arith)
                requires
                    p == 0,
                    d == 0,
            ;
            assert(0 <= q * xx) by (nonlinear_arith)
                requires
                    0 <= q,
                    0 <= xx,
            ;
        } else {
            let s = p * y;
            let t = d * x;
            let u = s - t;
            assert(u * u == s * s - 2 * (s * t) + t * t) by (nonlinear_arith)
                requires
                    u == s - t,
            ;
            lemma_regroup(p, y, p, y);
            assert(s * s == p * (p * yy));
            lemma_regroup(p, y, d, x);
            assert(y * x == xy) by (nonlinear_arith)
                requires
                    xy == x * y,
            ;
            assert(s * t == p * (d * xy));
            lemma_regroup(d, x, d, x);
            assert(t * t == dd * xx);
            assert(p * rest == p * (p * yy) + p * (q * xx) - 2 * (p * (d * xy))) by (nonlinear_arith)
                requires
                    rest == p * yy + q * xx - 2 * (d * xy),
            ;
            assert((pq - dd) * xx == p * (q * xx) - dd * xx) by (nonlinear_arith)
                requires
                    pq == p * q,
            ;
            assert(p * rest == u * u + (pq - dd) * xx);
            assert(0 <= u * u) by (nonlinear_arith);
            assert(0 <= (pq - dd) * xx) by (nonlinear_arith)
                requires
                    0 <= pq - dd,
                    0 <= xx,
            ;
            assert(0 <= rest) by (nonlinear_arith)
                requires
                    0 <= p * rest,
                    0 < p,
            ;
        }
    }
    assert((p + xx) * (q + yy) == pq + p * yy + xx * q + xx * yy) by (nonlinear_arith)
        requires
            pq == p * q,
    ;
    assert(xx * q == q * xx) by (nonlinear_arith);
    assert((d + xy) * (d + xy) == dd + 2 * (d * xy) + xy * xy) by (nonlinear_arith)
        requires
            dd == d * d,
    ;
    lemma_regroup(x, x, y, y);
    assert(xx * yy == xy * xy);
}

/// Computes the dot product of two vectors of one length.
pub fn dot_product(a: &Vec<i16>, b: &Vec<i16>) -> (d: i64)
    requires
        a.len() == b.len(),
        a.len() <= max_len(),
    ensures
        d == dot(a@, b@),
{
    let mut acc: i64 = 0;
    let mut i: usize = 0;
    while i < a.len()
        invariant
            a.len() == b.len(),
            a.len() <= max_len(),
            i <= a.len(),
            acc == dot_upto(a@, b@, i as int),
        decreases a.len() - i,
    {
        let x: i64 = a[i] as i64;
        let y: i64 = b[i] as i64;
        proof {
            lemma_dot_bound(a@, b@, i as int);
            lemma_dot_bound(a@, b@, i + 1);
            assert(-0x4000_0000 <= x * y <= 0x4000_0000) by (nonlinear_arith)
                requires
                    -0x8000 <= x <= 0x7fff,
                    -0x8000 <= y <= 0x7fff,
            ;
        }
        acc = acc + x * y;
        i = i + 1;
    }
    acc
}

/// The cosine similarity of a query and a stored vector, kept exactly.
///
/// The similarity is `dot` divided by the square root of the product of the
/// two squared norms, and 0 where one of them is 0. Two scores are compared
/// without rounding, through the square of that ratio taken with the sign
/// of `dot`.
#[derive(Clone, Copy, Debug, PartialEq, Eq)]
pub struct Score {
    pub dot: i64,
    pub query_norm_sq: u64,
    pub point_norm_sq: u64,
}

impl Score {
    /// One of the two vectors has norm 0: the similarity is 0 by definition.
    pub open spec fn degenerate(self) -> bool {
        self.query_norm_sq == 0 || self.point_norm_sq == 0
    }

    /// The numerator of the signed square of the similarity.
    pub open spec fn numer(self) -> int {
        if self.degenerate() {
            0
        } else if self.dot >= 0 {
            self.dot * self.dot
        } else {
            -(self.dot * self.dot)
        }
    }

    /// The denominator of the signed square of the similarity: positive.
    pub open spec fn denom(self) -> int {
        if self.degenerate() {
            1
        } else {
            self.query_norm_sq * self.point_norm_sq
        }
    }

    /// The similarity `self` is at most the similarity `other`.
    pub open spec fn at_most(self, other: Score) -> bool {
        self.numer() * other.denom() <= other.numer() * self.denom()
    }

    /// The similarity `self` is strictly below the similarity `other`.
    pub open spec fn below(self, other: Score) -> bool {
        self.numer() * other.denom() < other.numer() * self.denom()
    }

    /// The two similarities are the same number.
    pub open spec fn ties(self, other: Score) -> bool {
        self.numer() * other.denom() == other.numer() * self.denom()
    }

    /// The similarity is exactly 1, the largest there is.
    pub open spec fn is_one(self) -> bool {
        self.numer() == self.denom()
    }

    /// The similarity is exactly 0.
    pub open spec fn is_null(self) -> bool {
        self.numer() == 0
    }

    /// The absolute value of the numerator, and whether the numerator is
    /// negative.
    fn signed_square(&self) -> (r: (u128, bool))
        ensures
            r.1 == (self.numer() < 0),
            r.0 == if r.1 { -self.numer() } else { self.numer() },
    {
        if self.query_norm_sq == 0 || self.point_norm_sq == 0 {
            (0, false)
        } else {
            let negative = self.dot < 0;
            let m: u128 = if negative {
                (-(self.dot as i128)) as u128
            } else {
                self.dot as u128
            };
            proof {
                let d = self.dot as int;
                assert(m * m == d * d) by (nonlinear_arith)
                    requires
                        m == d || m == -d,
                ;
                assert(0 <= m * m <= 0x4000_0000_0000_0000_0000_0000_0000_0000) by (nonlinear_arith)
                    requires
                        0 <= m <= 0x8000_0000_0000_0000,
                ;
                assert(negative ==> 0 < d * d) by (nonlinear_arith)
                    requires
                        negative ==> d < 0,
                ;
            }
            (m * m, negative)
        }
    }

    /// The denominator.
    fn denominator(&self) -> (r: u128)
        ensures
            r == self.denom(),
            r > 0,
    {
        if self.query_norm_sq == 0 || self.point_norm_sq == 0 {
            1
        } else {
            let a: u128 = self.query_norm_sq as u128;
            let b: u128 = self.point_norm_sq as u128;
            assert(0 < a * b <= 0xffff_ffff_ffff_ffff * 0xffff_ffff_ffff_ffff) by (nonlinear_arith)
                requires
                    0 < a <= 0xffff_ffff_ffff_ffff,
                    0 < b <= 0xffff_ffff_ffff_ffff,
            ;
            a * b
        }
    }

    /// Tells whether the similarity `self` is strictly below `other`.
    pub fn is_below(&self, other: &Score) -> (r: bool)
        ensures
            r == self.below(*other),
    {
        let (a, a_negative) = self.signed_square();
        let (c, c_negative) = other.signed_square();
        let b = self.denominator();
        let d = other.denominator();
        proof {
            lemma_sign_of_product(self.numer(), d as int);
            lemma_sign_of_product(other.numer(), b as int);
        }
        if a_negative && !c_negative {
            true
        } else if !a_negative && c_negative {
            false
        } else if !a_negative {
            ratio_lt(a, b, c, d)
        } else {
            proof {
                lemma_negate_product(self.numer(), d as int);
                lemma_negate_product(other.numer(), b as int);
            }
            ratio_lt(c, d, a, b)
        }
    }
}

/// A product with a positive factor has the sign of the other factor.
proof fn lemma_sign_of_product(n: int, d: int)
    requires
        d > 0,
    ensures
        n < 0 ==> n * d < 0,
        n >= 0 ==> n * d >= 0,
{
    assert(n < 0 ==> n * d < 0) by (nonlinear_arith)
        requires
            d > 0,
    ;
    assert(n >= 0 ==> n * d >= 0) by (nonlinear_arith)
        requires
            d > 0,
    ;
}

/// The sign can be moved out of a product.
proof fn lemma_negate_product(n: int, d: int)
    ensures
        (-n) * d == -(n * d),
{
    assert((-n) * d == -(n * d)) by (nonlinear_arith);
}

/// What quotients and remainders say about the order of two fractions.
proof fn lemma_fractions(a: int, b: int, c: int, d: int)
    requires
        0 <= a,
        0 < b,
        0 <= c,
        0 < d,
    ensures
        a / b < c / d ==> a * d < c * b,
        a / b > c / d ==> c * b < a * d,
        a / b == c / d ==> ((a * d < c * b) <==> (d * (a % b) < b * (c % d))),
        0 <= a % b < b,
        0 <= c % d < d,
{
    let qa = a / b;
    let ra = a % b;
    let qc = c / d;
    let rc = c % d;
    vstd::arithmetic::div_mod::lemma_fundamental_div_mod(a, b);
    vstd::arithmetic::div_mod::lemma_fundamental_div_mod(c, d);
    vstd::arithmetic::div_mod::lemma_mod_bound(a, b);
    vstd::arithmetic::div_mod::lemma_mod_bound(c, d);
    assert(a == b * qa + ra);
    assert(c == d * qc + rc);
    if qa < qc {
        lemma_quotients(a, b, qa, ra, c, d, qc, rc);
    }
    if qc < qa {
        lemma_quotients(c, d, qc, rc, a, b, qa, ra);
    }
    if qa == qc {
        assert(a * d - c * b == d * ra - b * rc) by (nonlinear_arith)
            requires
                a == b * qa + ra,
                c == d * qa + rc,
        ;
    }
}

/// A fraction with the smaller whole part is the smaller fraction.
proof fn lemma_quotients(a: int, b: int, qa: int, ra: int, c: int, d: int, qc: int, rc: int)
    requires
        0 < b,
        0 < d,
        a == b * qa + ra,
        c == d * qc + rc,
        0 <= ra < b,
        0 <= rc < d,
        qa < qc,
    ensures
        a * d < c * b,
{
    assert(a < b * qc) by (nonlinear_arith)
        requires
            a == b * qa + ra,
            ra < b,
            qa + 1 <= qc,
            0 < b,
    ;
    assert(a * d < (b * qc) * d) by (nonlinear_arith)
        requires
            a < b * qc,
            0 < d,
    ;
    assert((b * qc) * d <= c * b) by (nonlinear_arith)
        requires
            c == d * qc + rc,
            0 <= rc,
            0 < b,
    ;
}

/// Tells whether the fraction `a / b` is strictly below `c / d`, without
/// forming a product that could overflow.
fn ratio_lt(a: u128, b: u128, c: u128, d: u128) -> (r: bool)
    requires
        b > 0,
        d > 0,
    ensures
        r == (a * d < c * b),
    decreases b + d,
{
    proof {
        lemma_fractions(a as int, b as int, c as int, d as int);
    }
    let qa = a / b;
    let qc = c / d;
    if qa < qc {
        true
    } else if qa > qc {
        false
    } else {
        let ra = a % b;
        let rc = c % d;
        if rc == 0 {
            assert(!(d * ra < b * rc)) by (nonlinear_arith)
                requires
                    rc == 0,
                    0 <= d * ra,
            ;
            false
        } else if ra == 0 {
            assert(d * ra < b * rc) by (nonlinear_arith)
                requires
                    ra == 0,
                    0 < rc,
                    0 < b,
            ;
            true
        } else {
            assert(d * ra == ra * d && b * rc == rc * b) by (nonlinear_arith);
            ratio_lt(d, rc, b, ra)
        }
    }
}

/// The score of the vector `point` against the vector `query`.
pub open spec fn score_of(query: Seq<i16>, point: Seq<i16>) -> Score {
    Score {
        dot: dot(query, point) as i64,
        query_norm_sq: norm_sq(query) as u64,
        point_norm_sq: norm_sq(point) as u64,
    }
}

/// Computes the score of `point` against `query`.
pub fn cosine(query: &Vec<i16>, point: &Vec<i16>) -> (s: Score)
    requires
        query.len() == point.len(),
        query.len() <= max_len(),
    ensures
        s == score_of(query@, point@),
        s.dot == dot(query@, point@),
        s.query_norm_sq == norm_sq(query@),
        s.point_norm_sq == norm_sq(point@),
{
    let d = dot_product(query, point);
    let qq = dot_product(query, query);
    let pp = dot_product(point, point);
    proof {
        lemma_norm_nonnegative(query@, query@.len() as int);
        lemma_norm_nonnegative(point@, point@.len() as int);
        assert(dot(point@, point@) == dot_upto(point@, point@, query@.len() as int));
    }
    Score { dot: d, query_norm_sq: qq as u64, point_norm_sq: pp as u64 }
}

/// The denominator of a score is positive.
pub proof fn lemma_denom_positive(a: Score)
    ensures
        a.denom() > 0,
{
    let x = a.query_norm_sq as int;
    let y = a.point_norm_sq as int;
    assert(x > 0 && y > 0 ==> x * y > 0) by (nonlinear_arith);
}

/// The order of scores is transitive.
pub proof fn lemma_score_transitive(a: Score, b: Score, c: Score)
    requires
        a.at_most(b),
        b.at_most(c),
    ensures
        a.at_most(c),
{
    lemma_denom_positive(a);
    lemma_denom_positive(b);
    lemma_denom_positive(c);
    let (na, da) = (a.numer(), a.denom());
    let (nb, db) = (b.numer(), b.denom());
    let (nc, dc) = (c.numer(), c.denom());
    assert((na * db) * dc <= (nb * da) * dc) by (nonlinear_arith)
        requires
            na * db <= nb * da,
            dc > 0,
    ;
    assert((nb * dc) * da <= (nc * db) * da) by (nonlinear_arith)
        requires
            nb * dc <= nc * db,
            da > 0,
    ;
    assert((nb * da) * dc == (nb * dc) * da) by (nonlinear_arith);
    assert((na * db) * dc == (na * dc) * db) by (nonlinear_arith);
    assert((nc * db) * da == (nc * da) * db) by (nonlinear_arith);
    assert(na * dc <= nc * da) by (nonlinear_arith)
        requires
            (na * dc) * db <= (nc * da) * db,
            db > 0,
    ;
}

/// No similarity exceeds 1: the score of a vector against itself is the
/// largest that any vector of its length can reach against it.
pub proof fn lemma_score_bounded(query: Seq<i16>, point: Seq<i16>)
    requires
        query.len() == point.len(),
        query.len() <= max_len(),
    ensures
        score_of(query, point).numer() <= score_of(query, point).denom(),
{
    let n = query.len() as int;
    let s = score_of(query, point);
    lemma_dot_bound(query, point, n);
    lemma_dot_bound(query, query, n);
    lemma_dot_bound(point, point, n);
    lemma_norm_nonnegative(query, n);
    lemma_norm_nonnegative(point, n);
    lemma_cauchy_schwarz(query, point, n);
    let d = dot(query, point);
    assert(s.dot == d);
    assert(s.query_norm_sq == norm_sq(query));
    assert(s.point_norm_sq == norm_sq(point));
    if !s.degenerate() && d < 0 {
        assert(0 <= d * d) by (nonlinear_arith);
        lemma_denom_positive(s);
    }
}

/// A vector with a norm above 0 scores exactly 1 against itself.
pub proof fn lemma_score_of_itself(query: Seq<i16>)
    requires
        query.len() <= max_len(),
        norm_sq(query) > 0,
    ensures
        score_of(query, query).is_one(),
{
    let n = query.len() as int;
    lemma_dot_bound(query, query, n);
}

/// A score of 1 is below no score of two vectors of one length.
pub proof fn lemma_one_is_largest(one: Score, query: Seq<i16>, point: Seq<i16>)
    requires
        one.is_one(),
        query.len() == point.len(),
        query.len() <= max_len(),
    ensures
        score_of(query, point).at_most(one),
{
    let s = score_of(query, point);
    lemma_score_bounded(query, point);
    lemma_denom_positive(one);
    lemma_denom_positive(s);
    let (ns, ds) = (s.numer(), s.denom());
    let k = one.denom();
    assert(ns * k <= k * ds) by (nonlinear_arith)
        requires
            ns <= ds,
            k > 0,
    ;
}

} // verus!
