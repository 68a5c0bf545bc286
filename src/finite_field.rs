//! Interchangeable implementations of GF(2^8) arithmetic.
use vstd::prelude::*;
use crate::error::RsError;
use crate::gf::{
    gf_add,
    gf_sub,
    gf_neg,
    gf_mul,
    gf_div,
    gf_pow,
    gf_inv,
    gf_log,
    peasant,
    xtime,
    GENERATOR,
    IRREDUCIBLE,
    lemma_xor,
    lemma_mul_identities,
    lemma_mul_commutative,
    lemma_inverse,
    lemma_peasant_is_mul,
    lemma_peasant_zero,
    lemma_gpow_injective,
    lemma_log,
    lemma_gpow_mul,
    lemma_inv_gpow,
    lemma_gpow_mod,
    lemma_pow_zero_base,
    lemma_pow_of_gpow,
};

verus! {

/// The arithmetic of the field with 256 elements, on bytes.
///
/// Implementations differ only in speed: every operation returns the value of the spec
/// function of `gf` that it names.
pub trait Field256 {
    /// Additive identity.
    fn zero() -> (r: u8)
        ensures
            r == 0,
    {
        0
    }

    /// Multiplicative identity.
    fn one() -> (r: u8)
        ensures
            r == 1,
    {
        1
    }

    fn add(x: u8, y: u8) -> (r: u8)
        ensures
            r == gf_add(x, y),
    {
        x ^ y
    }

    fn sub(x: u8, y: u8) -> (r: u8)
        ensures
            r == gf_sub(x, y),
    {
        x ^ y
    }

    fn neg(x: u8) -> (r: u8)
        ensures
            r == gf_neg(x),
    {
        x
    }

    fn mul(&self, x: u8, y: u8) -> (r: u8)
        ensures
            r == gf_mul(x, y),
    ;

    fn div(&self, x: u8, y: u8) -> (r: u8)
        requires
            y != 0,
        ensures
            r == gf_div(x, y),
    {
        let i = self.inv(y);
        self.mul(x, i)
    }

    /// `x` raised to the power `y` (a count, not a field element).
    fn exp(&self, x: u8, y: u8) -> (r: u8)
        ensures
            r == gf_pow(x, y as nat),
    {
        let mut result: u8 = 1;
        let mut i: u8 = 0;
        while i < y
            invariant
                i <= y,
                result == gf_pow(x, i as nat),
            decreases y - i,
        {
            result = self.mul(result, x);
            i = i + 1;
        }
        result
    }

    /// The multiplicative inverse, found by searching the 255 non-zero elements; 0 for 0.
    fn inv(&self, x: u8) -> (r: u8)
        ensures
            r == gf_inv(x),
    {
        let mut i: u16 = 1;
        while i <= 255
            invariant
                1 <= i <= 256,
                forall|j: u8| 1 <= j < i ==> #[trigger] gf_mul(j, x) != 1,
            decreases 256 - i,
        {
            let c = i as u8;
            if self.mul(c, x) == 1 {
                proof {
                    lemma_mul_identities(c);
                    lemma_mul_commutative(c, x);
                    lemma_inverse(x);
                }
                return c;
            }
            i = i + 1;
        }
        proof {
            if x != 0 {
                lemma_inverse(x);
                lemma_mul_commutative(gf_inv(x), x);
            }
        }
        0
    }
}

/// Fails with `DivideByZero` exactly when the divisor is zero, else returns `x / y`.
pub fn checked_div<F: Field256>(field: &F, x: u8, y: u8) -> (r: Result<u8, RsError>)
    ensures
        y == 0 ==> r == Err::<u8, RsError>(RsError::DivideByZero),
        y != 0 ==> r == Ok::<u8, RsError>(gf_div(x, y)),
{
    if y == 0 {
        Err(RsError::DivideByZero)
    } else {
        Ok(field.div(x, y))
    }
}

/// Field arithmetic computed directly, without tables.
#[derive(Debug, Default, PartialEq, Eq, Clone, Copy)]
pub struct DirectField;

proof fn lemma_peasant_step(result: u8, a: u8, b: u8, n: nat)
    requires
        n > 0,
    ensures
        (result ^ (if b & 1u8 == 1u8 { a } else { 0u8 })) ^ peasant(xtime(a), b >> 1u8, (n - 1) as nat)
            == result ^ peasant(a, b, n),
{
    let low = if b & 1u8 == 1u8 { a } else { 0u8 };
    lemma_xor(result, low, peasant(xtime(a), b >> 1u8, (n - 1) as nat));
}

/// Doubles `a`: shifts it left and, when a bit is carried out, reduces by the irreducible
/// polynomial.
fn xtime_exec(a: u8) -> (r: u8)
    ensures
        r == xtime(a),
{
    let high = a & 0x80u8;
    let shifted = a << 1u8;
    let r = if high != 0 {
        shifted ^ IRREDUCIBLE
    } else {
        shifted
    };
    assert(r == xtime(a)) by (bit_vector)
        requires
            high == a & 0x80u8,
            shifted == ((a << 1u8) as u8),
            r == (if high != 0 { shifted ^ 0x1bu8 } else { shifted }),
    ;
    r
}

impl Field256 for DirectField {
    /// "Russian peasant" multiplication: add `a` for each set bit of `b`, doubling `a` (with
    /// reduction) at each step.
    fn mul(&self, x: u8, y: u8) -> (r: u8) {
        let mut result: u8 = 0;
        let mut a: u8 = x;
        let mut b: u8 = y;
        let mut i: u8 = 0;
        proof {
            lemma_peasant_is_mul(x, y);
            lemma_xor(peasant(x, y, 8), 0, 0);
        }
        while i < 8
            invariant
                i <= 8,
                result ^ peasant(a, b, (8 - i) as nat) == gf_mul(x, y),
                i == 8 ==> result == gf_mul(x, y),
            ensures
                result == gf_mul(x, y),
            decreases 8 - i,
        {
            proof {
                lemma_peasant_step(result, a, b, (8 - i) as nat);
            }
            if b & 1u8 == 1u8 {
                result = result ^ a;
            }
            b = b >> 1u8;
            if b == 0 {
                proof {
                    lemma_peasant_zero(xtime(a), (8 - i - 1) as nat);
                    lemma_peasant_zero(a, (8 - i) as nat);
                    lemma_xor(result, 0, 0);
                }
                break;
            }
            a = xtime_exec(a);
            i = i + 1;
            proof {
                lemma_xor(result, 0, 0);
            }
        }
        result
    }
}

/// The exponent and logarithm tables to the base `GENERATOR`: `exp[i] == 3^(i mod 255)` for
/// `i < 510`, and `log[y]` is the logarithm of every non-zero `y`.
pub open spec fn exp_log_tables(exp: Seq<u8>, log: Seq<u8>) -> bool {
    &&& exp.len() == 510
    &&& log.len() == 256
    &&& forall|i: int| 0 <= i < 510 ==> #[trigger] exp[i] == gf_pow(GENERATOR, (i % 255) as nat)
    &&& forall|y: int| 1 <= y < 256 ==> #[trigger] log[y] == gf_log(y as u8)
}

/// Builds the exponent and logarithm tables by walking the powers of the generator.
#[verifier::rlimit(100)]
fn build_exp_log_tables() -> (r: (Vec<u8>, Vec<u8>))
    ensures
        exp_log_tables(r.0@, r.1@),
{
    let direct = DirectField;
    let mut log: Vec<u8> = Vec::new();
    let mut k: usize = 0;
    while k < 256
        invariant
            k <= 256,
            log.len() == k,
        decreases 256 - k,
    {
        log.push(0);
        k = k + 1;
    }
    let mut exp: Vec<u8> = Vec::new();
    let mut x: u8 = 1;
    let mut i: usize = 0;
    while i < 255
        invariant
            i <= 255,
            exp.len() == i,
            log.len() == 256,
            x == gf_pow(GENERATOR, i as nat),
            forall|j: int| 0 <= j < i ==> #[trigger] exp@[j] == gf_pow(GENERATOR, j as nat),
            forall|j: nat| j < i ==> log@[#[trigger] gf_pow(GENERATOR, j) as int] == j,
        decreases 255 - i,
    {
        proof {
            assert forall|j: nat| j < i implies gf_pow(GENERATOR, j) != x by {
                lemma_gpow_injective(j, i as nat);
            }
        }
        exp.push(x);
        log[x as usize] = i as u8;
        x = direct.mul(x, GENERATOR);
        i = i + 1;
    }
    let mut i: usize = 0;
    while i < 255
        invariant
            i <= 255,
            exp.len() == 255 + i,
            forall|j: int| 0 <= j < 255 ==> #[trigger] exp@[j] == gf_pow(GENERATOR, j as nat),
            forall|j: int| 255 <= j < 255 + i ==> #[trigger] exp@[j] == gf_pow(GENERATOR, (j - 255) as nat),
        decreases 255 - i,
    {
        let v = exp[i];
        exp.push(v);
        i = i + 1;
    }
    proof {
        assert forall|j: int| 0 <= j < 510 implies #[trigger] exp@[j] == gf_pow(GENERATOR, (j % 255) as nat) by {
            if j < 255 {
                assert(j % 255 == j);
            } else {
                assert(j % 255 == j - 255);
            }
        }
        assert forall|y: int| 1 <= y < 256 implies #[trigger] log@[y] == gf_log(y as u8) by {
            lemma_log(y as u8);
        }
    }
    (exp, log)
}

/// Field arithmetic through exponent and logarithm tables.
pub struct ExpLogField {
    exp: Vec<u8>,
    log: Vec<u8>,
}

impl ExpLogField {
    #[verifier::type_invariant]
    spec fn tables_hold(&self) -> bool {
        exp_log_tables(self.exp@, self.log@)
    }

    pub fn new() -> (r: Self) {
        let (exp, log) = build_exp_log_tables();
        ExpLogField { exp, log }
    }
}

impl Default for ExpLogField {
    fn default() -> (r: Self) {
        ExpLogField::new()
    }
}

impl Field256 for ExpLogField {
    fn mul(&self, x: u8, y: u8) -> (r: u8) {
        proof {
            use_type_invariant(self);
            lemma_mul_identities(x);
            lemma_mul_identities(y);
        }
        if x == 0 || y == 0 {
            return 0;
        }
        let lx = self.log[x as usize] as usize;
        let ly = self.log[y as usize] as usize;
        proof {
            lemma_log(x);
            lemma_log(y);
            lemma_gpow_mul(lx as nat, ly as nat);
        }
        self.exp[lx + ly]
    }

    fn div(&self, x: u8, y: u8) -> (r: u8) {
        proof {
            use_type_invariant(self);
            lemma_mul_identities(gf_inv(y));
        }
        if x == 0 {
            return 0;
        }
        let lx = self.log[x as usize] as usize;
        let ly = self.log[y as usize] as usize;
        proof {
            lemma_log(x);
            lemma_log(y);
            lemma_inv_gpow(ly as nat);
            lemma_gpow_mul(lx as nat, (255 - ly) as nat);
        }
        self.exp[lx + 255 - ly]
    }

    fn inv(&self, x: u8) -> (r: u8) {
        proof {
            use_type_invariant(self);
        }
        if x == 0 {
            return 0;
        }
        let lx = self.log[x as usize] as usize;
        proof {
            lemma_log(x);
            lemma_inv_gpow(lx as nat);
            lemma_gpow_mod((255 - lx) as nat);
        }
        self.exp[255 - lx]
    }

    #[verifier::rlimit(50)]
    fn exp(&self, x: u8, y: u8) -> (r: u8) {
        proof {
            use_type_invariant(self);
            lemma_pow_zero_base(y as nat);
        }
        if y == 0 {
            return 1;
        }
        if x == 0 {
            return 0;
        }
        let lx = self.log[x as usize] as u32;
        proof {
            lemma_log(x);
            lemma_pow_of_gpow(lx as nat, y as nat);
            assert(lx * (y as u32) <= 254 * 255) by (nonlinear_arith)
                requires
                    lx <= 254,
                    y <= 255,
            ;
        }
        let e = (lx * (y as u32)) % 255;
        proof {
            assert(e % 255 == e);
        }
        self.exp[e as usize]
    }
}

/// Field arithmetic through a full multiplication table and an inverse table.
pub struct TableField {
    mul_table: Vec<Vec<u8>>,
    inv_table: Vec<u8>,
}

impl TableField {
    #[verifier::type_invariant]
    spec fn tables_hold(&self) -> bool {
        &&& self.mul_table@.len() == 256
        &&& forall|i: int| 0 <= i < 256 ==> #[trigger] self.mul_table@[i]@.len() == 256
        &&& forall|i: int, j: int|
            0 <= i < 256 && 0 <= j < 256 ==> #[trigger] self.mul_table@[i]@[j] == gf_mul(
                i as u8,
                j as u8,
            )
        &&& self.inv_table@.len() == 256
        &&& forall|i: int| 0 <= i < 256 ==> #[trigger] self.inv_table@[i] == gf_inv(i as u8)
    }

    /// Fills the tables from `DirectField`.
    #[verifier::rlimit(100)]
    pub fn new() -> (r: Self) {
        let direct = DirectField;
        let mut mul_table: Vec<Vec<u8>> = Vec::new();
        let mut i: usize = 0;
        while i < 256
            invariant
                i <= 256,
                mul_table@.len() == i,
                forall|a: int| 0 <= a < i ==> #[trigger] mul_table@[a]@.len() == 256,
                forall|a: int, b: int|
                    0 <= a < i && 0 <= b < 256 ==> #[trigger] mul_table@[a]@[b] == gf_mul(
                        a as u8,
                        b as u8,
                    ),
            decreases 256 - i,
        {
            let mut row: Vec<u8> = Vec::new();
            let mut j: usize = 0;
            while j < 256
                invariant
                    i < 256,
                    j <= 256,
                    row@.len() == j,
                    forall|b: int| 0 <= b < j ==> #[trigger] row@[b] == gf_mul(i as u8, b as u8),
                decreases 256 - j,
            {
                row.push(direct.mul(i as u8, j as u8));
                j = j + 1;
            }
            mul_table.push(row);
            i = i + 1;
        }
        let mut inv_table: Vec<u8> = Vec::new();
        let mut i: usize = 0;
        while i < 256
            invariant
                i <= 256,
                inv_table@.len() == i,
                forall|a: int| 0 <= a < i ==> #[trigger] inv_table@[a] == gf_inv(a as u8),
            decreases 256 - i,
        {
            inv_table.push(direct.inv(i as u8));
            i = i + 1;
        }
        TableField { mul_table, inv_table }
    }
}

impl Default for TableField {
    fn default() -> (r: Self) {
        TableField::new()
    }
}

impl Field256 for TableField {
    fn mul(&self, x: u8, y: u8) -> (r: u8) {
        proof {
            use_type_invariant(self);
            lemma_mul_identities(x);
            lemma_mul_identities(y);
        }
        if x == 0 || y == 0 {
            return 0;
        }
        self.mul_table[x as usize][y as usize]
    }

    fn div(&self, x: u8, y: u8) -> (r: u8) {
        proof {
            use_type_invariant(self);
            lemma_mul_identities(gf_inv(y));
        }
        if x == 0 {
            return 0;
        }
        let iy = self.inv_table[y as usize];
        self.mul_table[x as usize][iy as usize]
    }

    fn inv(&self, x: u8) -> (r: u8) {
        proof {
            use_type_invariant(self);
        }
        if x == 0 {
            return 0;
        }
        self.inv_table[x as usize]
    }
}

/// Log-table arithmetic offered through methods on the value itself.
pub struct FiniteField256Log {
    tables: ExpLogField,
}

impl Default for FiniteField256Log {
    fn default() -> (r: Self) {
        FiniteField256Log { tables: ExpLogField::new() }
    }
}

impl FiniteField256Log {
    pub fn add(&self, x: u8, y: u8) -> (r: u8)
        ensures
            r == gf_add(x, y),
    {
        x ^ y
    }

    pub fn sub(&self, x: u8, y: u8) -> (r: u8)
        ensures
            r == gf_sub(x, y),
    {
        x ^ y
    }

    pub fn mul(&self, x: u8, y: u8) -> (r: u8)
        ensures
            r == gf_mul(x, y),
    {
        self.tables.mul(x, y)
    }

    pub fn div(&self, x: u8, y: u8) -> (r: u8)
        requires
            y != 0,
        ensures
            r == gf_div(x, y),
    {
        self.tables.div(x, y)
    }

    pub fn inv(&self, x: u8) -> (r: u8)
        ensures
            r == gf_inv(x),
    {
        self.tables.inv(x)
    }

    /// `x` raised to the power `y`.
    pub fn exp(&self, x: u8, y: u8) -> (r: u8)
        ensures
            r == gf_pow(x, y as nat),
    {
        self.tables.exp(x, y)
    }
}

} // verus!
