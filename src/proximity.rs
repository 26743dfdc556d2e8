use vstd::prelude::*;
use vstd::string::*;

verus! {

/// A character of a hexadecimal fingerprint.
pub open spec fn is_hex_digit(c: char) -> bool {
    ('0' <= c && c <= '9') || ('a' <= c && c <= 'f') || ('A' <= c && c <= 'F')
}

/// The value of a hexadecimal digit.
pub open spec fn hex_value(c: char) -> int {
    if '0' <= c && c <= '9' {
        c as int - '0' as int
    } else if 'a' <= c && c <= 'f' {
        c as int - 'a' as int + 10
    } else {
        c as int - 'A' as int + 10
    }
}

/// The number of characters that two fingerprints are compared on: the
/// shorter length, rounded down to a whole number of bytes.
pub open spec fn compared_len(a: Seq<char>, b: Seq<char>) -> int {
    let m = if a.len() <= b.len() { a.len() as int } else { b.len() as int };
    m - m % 2
}

/// The first `n` characters are hexadecimal digits.
pub open spec fn hex_prefix(s: Seq<char>, n: int) -> bool {
    forall|i: int| 0 <= i < n ==> is_hex_digit(#[trigger] s[i])
}

/// Byte `k` of a hexadecimal string: the digits at `2k` and `2k + 1`.
pub open spec fn byte_at(s: Seq<char>, k: int) -> int {
    hex_value(s[2 * k]) * 16 + hex_value(s[2 * k + 1])
}

pub open spec fn abs_diff(x: int, y: int) -> int {
    if x >= y {
        x - y
    } else {
        y - x
    }
}

/// Sum of the absolute byte differences over the first `k` bytes.
pub open spec fn total_difference(a: Seq<char>, b: Seq<char>, k: nat) -> int
    decreases k,
{
    if k == 0 {
        0
    } else {
        total_difference(a, b, (k - 1) as nat) + abs_diff(byte_at(a, k - 1), byte_at(b, k - 1))
    }
}

/// Closeness of two fingerprints, kept exact as a fraction: the score is
/// `1 - difference / maximum`, and `1` when `maximum` is zero (nothing was
/// compared).
#[derive(Clone, Copy, Debug, PartialEq, Eq, Structural)]
pub struct Proximity {
    pub difference: u128,
    pub maximum: u128,
}

/// Why two fingerprints could not be compared.
#[derive(Clone, Copy, Debug, PartialEq, Eq, Structural)]
pub enum ProximityError {
    /// The compared part of the first fingerprint is not hexadecimal.
    FirstNotHex,
    /// The compared part of the second fingerprint is not hexadecimal.
    SecondNotHex,
}

/// The proximity of `a` and `b`.
pub open spec fn proximity_of(a: Seq<char>, b: Seq<char>) -> Result<Proximity, ProximityError> {
    let l = compared_len(a, b);
    if !hex_prefix(a, l) {
        Err(ProximityError::FirstNotHex)
    } else if !hex_prefix(b, l) {
        Err(ProximityError::SecondNotHex)
    } else {
        Ok(
            Proximity {
                difference: total_difference(a, b, (l / 2) as nat) as u128,
                maximum: (255 * (l / 2)) as u128,
            },
        )
    }
}

impl Proximity {
    /// Numerator of the score as a fraction.
    pub open spec fn score_num(self) -> int {
        if self.maximum == 0 {
            1
        } else {
            self.maximum - self.difference
        }
    }

    /// Denominator of the score as a fraction.
    pub open spec fn score_den(self) -> int {
        if self.maximum == 0 {
            1
        } else {
            self.maximum as int
        }
    }

    /// The score of `self` is strictly above that of `other`.
    pub open spec fn exceeds(self, other: Proximity) -> bool {
        self.score_num() * other.score_den() > other.score_num() * self.score_den()
    }

    /// The score is one: the compared parts are equal byte for byte.
    pub open spec fn is_exact(self) -> bool {
        self.score_num() == self.score_den()
    }

    /// The score lies in `[0, 1]`.
    pub open spec fn in_unit_range(self) -> bool {
        0 <= self.score_num() <= self.score_den() && self.score_den() > 0
    }

    fn num(&self) -> (r: u128)
        requires
            self.difference <= self.maximum,
        ensures
            r == self.score_num(),
    {
        if self.maximum == 0 {
            1
        } else {
            self.maximum - self.difference
        }
    }

    fn den(&self) -> (r: u128)
        ensures
            r == self.score_den(),
    {
        if self.maximum == 0 {
            1
        } else {
            self.maximum
        }
    }
}

/// The lowest score a candidate must reach, as the fraction
/// `numerator / denominator`.
#[derive(Clone, Copy, Debug, PartialEq, Eq, Structural)]
pub struct Threshold {
    pub numerator: u32,
    pub denominator: u32,
}

/// The threshold used when the caller gives none: 0.95.
pub const DEFAULT_NUMERATOR: u32 = 95;

pub const DEFAULT_DENOMINATOR: u32 = 100;

impl Threshold {
    pub open spec fn wf(self) -> bool {
        self.denominator > 0
    }

    /// `self` is at most `other`.
    pub open spec fn at_most(self, other: Threshold) -> bool {
        self.numerator * other.denominator <= other.numerator * self.denominator
    }

    pub open spec fn spec_default() -> Threshold {
        Threshold { numerator: DEFAULT_NUMERATOR, denominator: DEFAULT_DENOMINATOR }
    }

    /// The default threshold, 95 / 100.
    pub fn default_threshold() -> (r: Threshold)
        ensures
            r == Self::spec_default(),
            r.wf(),
    {
        Threshold { numerator: DEFAULT_NUMERATOR, denominator: DEFAULT_DENOMINATOR }
    }
}

/// The score of `p` reaches the threshold `t`.
pub open spec fn meets(p: Proximity, t: Threshold) -> bool {
    p.score_num() * t.denominator >= t.numerator * p.score_den()
}

/// Whether a character is a hexadecimal digit.
fn hex_digit(c: char) -> (r: bool)
    ensures
        r == is_hex_digit(c),
{
    ('0' <= c && c <= '9') || ('a' <= c && c <= 'f') || ('A' <= c && c <= 'F')
}

/// The value of a hexadecimal digit.
fn digit_value(c: char) -> (r: u64)
    requires
        is_hex_digit(c),
    ensures
        r == hex_value(c),
        r < 16,
{
    if '0' <= c && c <= '9' {
        (c as u32 - '0' as u32) as u64
    } else if 'a' <= c && c <= 'f' {
        (c as u32 - 'a' as u32 + 10) as u64
    } else {
        (c as u32 - 'A' as u32 + 10) as u64
    }
}

/// Whether the first `n` characters of `s` are hexadecimal digits.
fn hex_prefix_exec(s: &str, n: usize) -> (r: bool)
    requires
        n <= s@.len(),
    ensures
        r == hex_prefix(s@, n as int),
{
    let mut i: usize = 0;
    while i < n
        invariant
            n <= s@.len(),
            i <= n,
            hex_prefix(s@, i as int),
        decreases n - i,
    {
        if !hex_digit(s.get_char(i)) {
            return false;
        }
        i = i + 1;
    }
    true
}

/// Byte `k` of a hexadecimal string.
fn byte_value(s: &str, k: usize) -> (r: u64)
    requires
        2 * k + 1 < s@.len(),
        2 * k + 1 <= usize::MAX,
        is_hex_digit(s@[2 * k as int]),
        is_hex_digit(s@[2 * k + 1]),
    ensures
        r == byte_at(s@, k as int),
        r <= 255,
{
    let hi = digit_value(s.get_char(2 * k));
    let lo = digit_value(s.get_char(2 * k + 1));
    hi * 16 + lo
}

/// Compares two hexadecimal fingerprints on their common whole bytes.
///
/// Both are cut to the shorter length, rounded down to an even number of
/// characters; those characters must be hexadecimal digits. The difference
/// is the sum of the absolute differences of the byte pairs, out of 255 per
/// byte.
pub fn calculate_hex_hash_proximity(hash1: &str, hash2: &str) -> (r: Result<
    Proximity,
    ProximityError,
>)
    ensures
        r == proximity_of(hash1@, hash2@),
        r matches Ok(p) ==> p.difference <= p.maximum && p.in_unit_range(),
        r matches Ok(p) ==> p.maximum == 255 * (compared_len(hash1@, hash2@) / 2),
{
    let l1 = hash1.unicode_len();
    let l2 = hash2.unicode_len();
    let m = if l1 <= l2 {
        l1
    } else {
        l2
    };
    let l = m - m % 2;
    if !hex_prefix_exec(hash1, l) {
        return Err(ProximityError::FirstNotHex);
    }
    if !hex_prefix_exec(hash2, l) {
        return Err(ProximityError::SecondNotHex);
    }
    let bytes = l / 2;
    let mut total: u128 = 0;
    let mut k: usize = 0;
    while k < bytes
        invariant
            l == compared_len(hash1@, hash2@),
            l <= hash1@.len(),
            l <= hash2@.len(),
            bytes == l / 2,
            hex_prefix(hash1@, l as int),
            hex_prefix(hash2@, l as int),
            k <= bytes,
            total == total_difference(hash1@, hash2@, k as nat),
            total <= 255 * k,
        decreases bytes - k,
    {
        let a = byte_value(hash1, k);
        let b = byte_value(hash2, k);
        let d = if a >= b {
            a - b
        } else {
            b - a
        };
        total = total + d as u128;
        k = k + 1;
    }
    let p = Proximity { difference: total, maximum: 255 * (bytes as u128) };
    proof {
        lemma_proximity_in_unit_range(hash1@, hash2@);
    }
    Ok(p)
}

/// Comparing a valid fingerprint with itself gives a score of one.
pub proof fn lemma_self_proximity(h: Seq<char>)
    requires
        hex_prefix(h, compared_len(h, h)),
    ensures
        proximity_of(h, h) matches Ok(p) && p.difference == 0 && p.is_exact(),
{
    let k = (compared_len(h, h) / 2) as nat;
    lemma_total_difference_self(h, k);
}

proof fn lemma_total_difference_self(h: Seq<char>, k: nat)
    ensures
        total_difference(h, h, k) == 0,
    decreases k,
{
    if k > 0 {
        lemma_total_difference_self(h, (k - 1) as nat);
    }
}

proof fn lemma_total_difference_symmetric(a: Seq<char>, b: Seq<char>, k: nat)
    ensures
        total_difference(a, b, k) == total_difference(b, a, k),
    decreases k,
{
    if k > 0 {
        lemma_total_difference_symmetric(a, b, (k - 1) as nat);
    }
}

/// Proximity does not depend on the order of its arguments, for fingerprints
/// whose compared parts are hexadecimal.
pub proof fn lemma_proximity_symmetric(a: Seq<char>, b: Seq<char>)
    requires
        hex_prefix(a, compared_len(a, b)),
        hex_prefix(b, compared_len(a, b)),
    ensures
        proximity_of(a, b) == proximity_of(b, a),
{
    assert(compared_len(a, b) == compared_len(b, a));
    lemma_total_difference_symmetric(a, b, (compared_len(a, b) / 2) as nat);
}

proof fn lemma_total_difference_bounded(a: Seq<char>, b: Seq<char>, k: nat)
    requires
        hex_prefix(a, 2 * k as int),
        hex_prefix(b, 2 * k as int),
    ensures
        0 <= total_difference(a, b, k) <= 255 * k,
    decreases k,
{
    if k > 0 {
        lemma_total_difference_bounded(a, b, (k - 1) as nat);
        let i = k - 1;
        assert(is_hex_digit(a[2 * i]) && is_hex_digit(a[2 * i + 1]));
        assert(is_hex_digit(b[2 * i]) && is_hex_digit(b[2 * i + 1]));
    }
}

/// A score always lies between zero and one (for fingerprints of a length
/// that a machine string can have).
pub proof fn lemma_proximity_in_unit_range(a: Seq<char>, b: Seq<char>)
    requires
        compared_len(a, b) <= usize::MAX,
    ensures
        proximity_of(a, b) matches Ok(p) ==> p.difference <= p.maximum && p.in_unit_range(),
{
    let l = compared_len(a, b);
    if hex_prefix(a, l) && hex_prefix(b, l) {
        lemma_total_difference_bounded(a, b, (l / 2) as nat);
    }
}

/// Why no similar fingerprint was returned.
#[derive(Clone, Copy, Debug, PartialEq, Eq, Structural)]
pub enum SimilarityError {
    /// A candidate could not be compared with the target.
    Proximity(ProximityError),
    /// No candidate reaches the threshold.
    NotFound,
}

/// The threshold in force: the given one, or 95 / 100.
pub open spec fn effective_threshold(t: Option<Threshold>) -> Threshold {
    match t {
        Some(t) => t,
        None => Threshold::spec_default(),
    }
}

/// A candidate is eligible when it can be compared with the target and its
/// score reaches the threshold.
pub open spec fn eligible(target: Seq<char>, candidate: Seq<char>, t: Threshold) -> bool {
    proximity_of(target, candidate) matches Ok(p) && meets(p, t)
}

/// Proximity of the target to the fingerprint of entry `j`.
pub open spec fn entry_proximity(target: Seq<char>, links: Seq<(String, String)>, j: int) -> Result<
    Proximity,
    ProximityError,
> {
    proximity_of(target, links[j].0@)
}

/// Entry `i` is the one selected: it is eligible, no eligible entry scores
/// higher, and every eligible entry before it scores lower (the first of
/// equal best scores wins).
pub open spec fn is_best(target: Seq<char>, links: Seq<(String, String)>, t: Threshold, i: int) -> bool {
    &&& 0 <= i < links.len()
    &&& eligible(target, links[i].0@, t)
    &&& forall|j: int|
        0 <= j < links.len() && eligible(target, #[trigger] links[j].0@, t) ==> !entry_proximity(
            target,
            links,
            j,
        )->Ok_0.exceeds(entry_proximity(target, links, i)->Ok_0)
    &&& forall|j: int|
        0 <= j < i && eligible(target, #[trigger] links[j].0@, t) ==> entry_proximity(
            target,
            links,
            i,
        )->Ok_0.exceeds(entry_proximity(target, links, j)->Ok_0)
}

/// Every entry of `links[..n]` can be compared with the target.
pub open spec fn comparable_prefix(target: Seq<char>, links: Seq<(String, String)>, n: int) -> bool {
    forall|j: int| 0 <= j < n ==> (#[trigger] entry_proximity(target, links, j)) is Ok
}

/// Product of two values below 2^64, without loss.
fn mul_wide(a: u128, b: u128) -> (r: u128)
    requires
        a <= u64::MAX,
        b <= u64::MAX,
    ensures
        r == a * b,
{
    proof {
        assert(a * b <= u64::MAX * u64::MAX) by (nonlinear_arith)
            requires
                a <= u64::MAX,
                b <= u64::MAX,
        ;
    }
    a * b
}

/// Whether `p` reaches the threshold `t`.
fn meets_exec(p: &Proximity, t: &Threshold) -> (r: bool)
    requires
        p.difference <= p.maximum,
        p.maximum <= u64::MAX,
    ensures
        r == meets(*p, *t),
{
    mul_wide(p.num(), t.denominator as u128) >= mul_wide(t.numerator as u128, p.den())
}

/// Whether the score of `p` is strictly above that of `q`.
fn exceeds_exec(p: &Proximity, q: &Proximity) -> (r: bool)
    requires
        p.difference <= p.maximum,
        q.difference <= q.maximum,
        p.maximum <= u64::MAX,
        q.maximum <= u64::MAX,
    ensures
        r == p.exceeds(*q),
{
    mul_wide(p.num(), q.den()) > mul_wide(q.num(), p.den())
}

proof fn lemma_exceeds_order(x: Proximity, y: Proximity, z: Proximity)
    requires
        x.in_unit_range(),
        y.in_unit_range(),
        z.in_unit_range(),
        !x.exceeds(y),
        z.exceeds(y),
    ensures
        z.exceeds(x),
        !x.exceeds(z),
{
    let (xn, xd, yn, yd, zn, zd) = (
        x.score_num(),
        x.score_den(),
        y.score_num(),
        y.score_den(),
        z.score_num(),
        z.score_den(),
    );
    assert(zn * xd > xn * zd) by (nonlinear_arith)
        requires
            xn * yd <= yn * xd,
            zn * yd > yn * zd,
            xd > 0,
            yd > 0,
            zd > 0,
    ;
}

/// Looks for the candidate fingerprint closest to `hash`.
///
/// Every candidate is compared with `hash`; those whose score reaches the
/// threshold (95 / 100 when none is given) are eligible, and the eligible
/// entry with the highest score is returned with its score. Of equal best
/// scores the first in `links` wins. A candidate that cannot be compared
/// stops the search with its error.
pub fn try_finding_similar_hash(
    hash: String,
    links: Vec<(String, String)>,
    proximity_threshold: Option<Threshold>,
) -> (r: Result<(String, String, Proximity), SimilarityError>)
    requires
        hash@.len() <= u32::MAX,
        proximity_threshold matches Some(t) ==> t.wf(),
    ensures
        ({
            let t = effective_threshold(proximity_threshold);
            match r {
                Ok((h, l, p)) => comparable_prefix(hash@, links@, links@.len() as int) && exists|
                    i: int,
                |
                    is_best(hash@, links@, t, i) && h@ == (#[trigger] links@[i]).0@ && l@
                        == links@[i].1@ && entry_proximity(hash@, links@, i) == Ok::<
                        Proximity,
                        ProximityError,
                    >(p),
                Err(SimilarityError::NotFound) => comparable_prefix(
                    hash@,
                    links@,
                    links@.len() as int,
                ) && forall|j: int|
                    0 <= j < links@.len() ==> !eligible(hash@, (#[trigger] links@[j]).0@, t),
                Err(SimilarityError::Proximity(e)) => exists|i: int|
                    0 <= i < links@.len() && comparable_prefix(hash@, links@, i)
                        && #[trigger] entry_proximity(hash@, links@, i) == Err::<
                        Proximity,
                        ProximityError,
                    >(e),
            }
        }),
{
    let t = match proximity_threshold {
        Some(t) => t,
        None => Threshold::default_threshold(),
    };
    let ghost target = hash@;
    let mut best: Option<(usize, Proximity)> = None;
    let mut i: usize = 0;
    while i < links.len()
        invariant
            target == hash@,
            target.len() <= u32::MAX,
            t == effective_threshold(proximity_threshold),
            i <= links@.len(),
            comparable_prefix(target, links@, i as int),
            best is None ==> forall|j: int|
                0 <= j < i ==> !eligible(target, (#[trigger] links@[j]).0@, t),
            best matches Some((b, bp)) ==> {
                &&& b < i
                &&& entry_proximity(target, links@, b as int) == Ok::<Proximity, ProximityError>(bp)
                &&& bp.difference <= bp.maximum
                &&& bp.maximum <= u64::MAX
                &&& bp.in_unit_range()
                &&& eligible(target, links@[b as int].0@, t)
                &&& forall|j: int|
                    0 <= j < i && eligible(target, (#[trigger] links@[j]).0@, t)
                        ==> !entry_proximity(target, links@, j)->Ok_0.exceeds(bp)
                &&& forall|j: int|
                    0 <= j < b && eligible(target, (#[trigger] links@[j]).0@, t) ==> bp.exceeds(
                        entry_proximity(target, links@, j)->Ok_0,
                    )
            },
        decreases links@.len() - i,
    {
        let pr = calculate_hex_hash_proximity(hash.as_str(), links[i].0.as_str());
        match pr {
            Err(e) => {
                return Err(SimilarityError::Proximity(e));
            },
            Ok(p) => {
                proof {
                    lemma_proximity_in_unit_range(target, links@[i as int].0@);
                }
                if meets_exec(&p, &t) {
                    match best {
                        None => {
                            best = Some((i, p));
                        },
                        Some((b, bp)) => {
                            if exceeds_exec(&p, &bp) {
                                proof {
                                    assert forall|j: int|
                                        0 <= j < i && eligible(target, (#[trigger] links@[j]).0@, t)
                                            implies p.exceeds(entry_proximity(target, links@, j)->Ok_0)
                                        && !entry_proximity(target, links@, j)->Ok_0.exceeds(p) by {
                                        lemma_proximity_in_unit_range(target, links@[j].0@);
                                        lemma_exceeds_order(
                                            entry_proximity(target, links@, j)->Ok_0,
                                            bp,
                                            p,
                                        );
                                    }
                                }
                                best = Some((i, p));
                            }
                        },
                    }
                }
            },
        }
        i = i + 1;
    }
    match best {
        None => Err(SimilarityError::NotFound),
        Some((b, bp)) => {
            let h = links[b].0.clone();
            let l = links[b].1.clone();
            proof {
                assert(is_best(target, links@, t, b as int));
            }
            Ok((h, l, bp))
        },
    }
}

/// Lowering the threshold never makes an eligible candidate ineligible.
pub proof fn lemma_threshold_monotone(
    target: Seq<char>,
    candidate: Seq<char>,
    lower: Threshold,
    higher: Threshold,
)
    requires
        lower.wf(),
        higher.wf(),
        lower.at_most(higher),
        eligible(target, candidate, higher),
    ensures
        eligible(target, candidate, lower),
{
    let p = proximity_of(target, candidate)->Ok_0;
    let (n, d) = (p.score_num(), p.score_den());
    let (ln, ld, hn, hd) = (
        lower.numerator as int,
        lower.denominator as int,
        higher.numerator as int,
        higher.denominator as int,
    );
    assert(n * ld >= ln * d) by (nonlinear_arith)
        requires
            n * hd >= hn * d,
            ln * hd <= hn * ld,
            d > 0,
            ld > 0,
            hd > 0,
    ;
}

} // verus!
