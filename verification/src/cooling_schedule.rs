//! The two-phase cooling schedule: a lazily produced, monotone nondecreasing
//! sequence of inverse temperatures β.
//!
//! With L = ⌈log₂ n⌉, the additive phase emits β = k / (n·r_a) for
//! k = 0, …, K_a where K_a = r_a·n·L; the multiplicative phase then emits
//! K_m = L²·n·r_m further values, each the previous one times
//! γ = 1 + 1/(n·L·r_m); after that the schedule is exhausted. Every β is the
//! rational number pinned down by its [`BetaStep`]; the driver converts the
//! step to its floating-point value.

use vstd::arithmetic::mul::lemma_mul_inequality;
use vstd::arithmetic::power::{lemma_pow1, lemma_pow_adds, lemma_pow_positive, pow};
use vstd::prelude::*;

verus! {

/// 2 to the power k.
pub open spec fn two_to(k: nat) -> int
    decreases k,
{
    if k == 0 {
        1
    } else {
        2 * two_to((k - 1) as nat)
    }
}

/// ⌈log₂ n⌉ for n ≥ 1 (and 0 for n ≤ 1).
pub open spec fn clog2(n: nat) -> nat
    decreases n,
{
    if n <= 1 {
        0
    } else {
        1 + clog2(((n + 1) / 2) as nat)
    }
}

proof fn lemma_two_to_pos(k: nat)
    ensures
        two_to(k) >= 1,
    decreases k,
{
    if k > 0 {
        lemma_two_to_pos((k - 1) as nat);
    }
}

proof fn lemma_two_to_increases(a: nat, b: nat)
    requires
        a < b,
    ensures
        two_to(a) < two_to(b),
    decreases b,
{
    lemma_two_to_pos(a);
    if a + 1 < b {
        lemma_two_to_increases(a, (b - 1) as nat);
    }
}

/// clog2 is characterised by two-sided powers of two.
proof fn lemma_clog2_bounds(n: nat)
    requires
        n >= 1,
    ensures
        two_to(clog2(n)) >= n,
        clog2(n) >= 1 ==> two_to((clog2(n) - 1) as nat) < n,
    decreases n,
{
    if n > 1 {
        let m = ((n + 1) / 2) as nat;
        lemma_clog2_bounds(m);
        if clog2(m) >= 1 {
            lemma_two_to_pos((clog2(m) - 1) as nat);
        }
    }
}

/// The two-sided power bounds determine clog2 uniquely.
proof fn lemma_clog2_unique(n: nat, k: nat)
    requires
        n >= 1,
        two_to(k) >= n,
        k >= 1 ==> two_to((k - 1) as nat) < n,
    ensures
        k == clog2(n),
{
    lemma_clog2_bounds(n);
    let c = clog2(n);
    if k < c {
        lemma_two_to_pos(k);
        if k < c - 1 {
            lemma_two_to_increases(k, (c - 1) as nat);
        }
        assert(false);
    }
    if c < k {
        if c < k - 1 {
            lemma_two_to_increases(c, (k - 1) as nat);
        }
        assert(false);
    }
}

/// clog2 of anything up to 2^15 is at most 15.
proof fn lemma_clog2_small(n: nat)
    requires
        1 <= n <= 0x8000,
    ensures
        clog2(n) <= 15,
{
    lemma_clog2_bounds(n);
    assert(two_to(15) == 0x8000) by {
        reveal_with_fuel(two_to, 16);
    }
    let c = clog2(n);
    if c > 15 {
        lemma_two_to_increases(15, (c - 1) as nat);
        assert(false);
    }
}

/// Parameters of the cooling schedule: the problem size and the two
/// slow-down ratios.
#[derive(Clone, Copy, Debug)]
pub struct CoolingConfig {
    pub n: usize,
    pub additive_ratio: usize,
    pub multiplicative_ratio: usize,
}

impl CoolingConfig {
    /// The bounds are what the schedule's arithmetic needs: with
    /// L = ⌈log₂ n⌉ ≤ 15, the counts K_a = r_a·n·L and K_m = L²·n·r_m and
    /// the γ denominator n·L·r_m must all stay below 2³¹.
    pub open spec fn wf(self) -> bool {
        &&& 1 <= self.n <= 0x8000
        &&& 1 <= self.additive_ratio
        &&& 1 <= self.multiplicative_ratio
        &&& self.additive_ratio * self.n <= 0x0800_0000
        &&& self.multiplicative_ratio * self.n <= 0x0090_0000
    }

    /// L = ⌈log₂ n⌉.
    pub open spec fn l_of(self) -> int {
        clog2(self.n as nat) as int
    }

    /// Number of additive increments, K_a = r_a·n·L.
    pub open spec fn k_a(self) -> int {
        self.additive_ratio as int * self.n as int * self.l_of()
    }

    /// Number of multiplicative steps, K_m = L²·n·r_m.
    pub open spec fn k_m(self) -> int {
        self.l_of() * self.l_of() * self.n as int * self.multiplicative_ratio as int
    }

    /// Denominator of the additive phase, n·r_a.
    pub open spec fn d_a(self) -> int {
        self.n as int * self.additive_ratio as int
    }

    /// γ = (M + 1)/M with M = n·L·r_m.
    pub open spec fn m_of(self) -> int {
        self.n as int * self.l_of() * self.multiplicative_ratio as int
    }

    /// How many values the schedule emits in total before terminating:
    /// K_a + 1 + K_m.
    pub open spec fn schedule_len(self) -> int {
        self.k_a() + 1 + self.k_m()
    }

    /// ⌈log₂ n⌉, computed by doubling.
    pub fn log(&self) -> (r: usize)
        requires
            self.wf(),
        ensures
            r == self.l_of(),
            r <= 15,
    {
        let mut k: usize = 0;
        let mut p: usize = 1;
        while p < self.n
            invariant
                self.wf(),
                p == two_to(k as nat),
                1 <= p <= 0x8000,
                k <= 15,
                k >= 1 ==> two_to((k - 1) as nat) < self.n,
            decreases 16 - k,
        {
            proof {
                assert(two_to(15) == 0x8000) by {
                    reveal_with_fuel(two_to, 16);
                }
                if k >= 15 {
                    assert(false);
                }
                if k + 1 < 15 {
                    lemma_two_to_increases((k + 1) as nat, 15);
                }
            }
            p = p * 2;
            k = k + 1;
        }
        proof {
            lemma_clog2_unique(self.n as nat, k as nat);
            lemma_clog2_small(self.n as nat);
        }
        k
    }
}

/// Where the schedule stands: counting up through the additive phase,
/// multiplying through the second phase, or exhausted.
#[derive(Clone, Copy, Debug)]
pub enum CoolingState {
    Additive { current: usize, target: usize },
    Multiplicative { times: usize, target: usize },
    Infinite,
}

/// One emitted β, as the exact rational it stands for: `Additive { step: k }`
/// is k/(n·r_a); `Multiplicative { step: t }` is (K_a/(n·r_a))·γ^t.
#[derive(Clone, Copy, Debug, PartialEq, Eq, Structural)]
pub enum BetaStep {
    Additive { step: usize },
    Multiplicative { step: usize },
}

/// Numerator of the rational value of an emitted β.
pub open spec fn beta_num(cfg: CoolingConfig, b: BetaStep) -> int {
    match b {
        BetaStep::Additive { step } => step as int,
        BetaStep::Multiplicative { step } => cfg.k_a() * pow(cfg.m_of() + 1, step as nat),
    }
}

/// Denominator of the rational value of an emitted β; positive for every
/// step the schedule emits.
pub open spec fn beta_den(cfg: CoolingConfig, b: BetaStep) -> int {
    match b {
        BetaStep::Additive { step } => cfg.d_a(),
        BetaStep::Multiplicative { step } => cfg.d_a() * pow(cfg.m_of(), step as nat),
    }
}

/// The rational value of b1 is at most that of b2 (by cross-multiplication).
pub open spec fn beta_le(cfg: CoolingConfig, b1: BetaStep, b2: BetaStep) -> bool {
    beta_num(cfg, b1) * beta_den(cfg, b2) <= beta_num(cfg, b2) * beta_den(cfg, b1)
}

/// The value the schedule emits at position idx (0-based).
pub open spec fn emitted_at(cfg: CoolingConfig, idx: int) -> BetaStep {
    if idx <= cfg.k_a() {
        BetaStep::Additive { step: idx as usize }
    } else {
        BetaStep::Multiplicative { step: (idx - cfg.k_a()) as usize }
    }
}

/// The lazily evaluated schedule; a single-pass source of β values.
pub struct CoolingSchedule {
    config: CoolingConfig,
    state: CoolingState,
}

impl CoolingSchedule {
    pub closed spec fn cfg(self) -> CoolingConfig {
        self.config
    }

    pub closed spec fn wf(self) -> bool {
        &&& self.config.wf()
        &&& match self.state {
            CoolingState::Additive { current, target } => {
                target == self.config.k_a() && current <= target
            }
            CoolingState::Multiplicative { times, target } => {
                target == self.config.k_m() && 1 <= times <= target
            }
            CoolingState::Infinite => true,
        }
    }

    /// How many values have already been emitted.
    pub closed spec fn position(self) -> int {
        match self.state {
            CoolingState::Additive { current, target } => current as int,
            CoolingState::Multiplicative { times, target } => self.config.k_a() + times,
            CoolingState::Infinite => self.config.schedule_len(),
        }
    }

    /// A fresh schedule, at the start of the additive phase.
    pub fn from(config: CoolingConfig) -> (r: CoolingSchedule)
        requires
            config.wf(),
        ensures
            r.wf(),
            r.cfg() == config,
            r.position() == 0,
    {
        let log = config.log();
        proof {
            assert(config.additive_ratio * config.n * log <= 0x0800_0000 * 15)
                by (nonlinear_arith)
                requires config.additive_ratio * config.n <= 0x0800_0000 && log <= 15;
        }
        let target = config.additive_ratio * config.n * log;
        CoolingSchedule {
            config,
            state: CoolingState::Additive { current: 0, target },
        }
    }

    /// Emit the next β of the schedule, or nothing once
    /// K_a + 1 + K_m values have been produced.
    pub fn next(&mut self) -> (r: Option<BetaStep>)
        requires
            old(self).wf(),
        ensures
            final(self).wf(),
            final(self).cfg() == old(self).cfg(),
            old(self).position() < old(self).cfg().schedule_len() ==> {
                &&& r == Some(emitted_at(old(self).cfg(), old(self).position()))
                &&& final(self).position() == old(self).position() + 1
            },
            old(self).position() >= old(self).cfg().schedule_len() ==> {
                &&& r is None
                &&& final(self).position() == old(self).position()
            },
    {
        proof {
            self.config.lemma_counts_nonneg();
        }
        match self.state {
            CoolingState::Additive { current, target } => {
                let value = BetaStep::Additive { step: current };
                if current == target {
                    let log = self.config.log();
                    proof {
                        assert(log * log <= 225) by (nonlinear_arith)
                            requires log <= 15;
                        assert(log * log * self.config.n <= 225 * 0x8000) by (nonlinear_arith)
                            requires log * log <= 225 && self.config.n <= 0x8000;
                        assert(log * log * self.config.n * self.config.multiplicative_ratio
                            <= 225 * (self.config.multiplicative_ratio * self.config.n))
                            by (nonlinear_arith)
                            requires
                                log * log <= 225
                                    && 1 <= self.config.n
                                    && 1 <= self.config.multiplicative_ratio;
                        assert(225 * (self.config.multiplicative_ratio * self.config.n)
                            <= 225 * 0x0090_0000) by (nonlinear_arith)
                            requires self.config.multiplicative_ratio * self.config.n
                                <= 0x0090_0000;
                    }
                    let mtarget = log * log * self.config.n * self.config.multiplicative_ratio;
                    if mtarget == 0 {
                        self.state = CoolingState::Infinite;
                    } else {
                        self.state = CoolingState::Multiplicative { times: 1, target: mtarget };
                    }
                } else {
                    self.state = CoolingState::Additive { current: current + 1, target };
                }
                Some(value)
            }
            CoolingState::Multiplicative { times, target } => {
                let value = BetaStep::Multiplicative { step: times };
                if times == target {
                    self.state = CoolingState::Infinite;
                } else {
                    self.state = CoolingState::Multiplicative { times: times + 1, target };
                }
                Some(value)
            }
            CoolingState::Infinite => None,
        }
    }
}

impl CoolingConfig {
    /// All schedule counts are nonnegative and fit comfortably in a usize,
    /// and K_m = 0 exactly when L = 0.
    pub proof fn lemma_counts_nonneg(self)
        requires
            self.wf(),
        ensures
            0 <= self.l_of() <= 15,
            0 <= self.k_a() <= 0x7fff_ffff,
            0 <= self.k_m() <= 0x7fff_ffff,
            1 <= self.d_a() <= 0x7fff_ffff,
            0 <= self.m_of() <= 0x7fff_ffff,
            self.l_of() >= 1 ==> self.k_a() >= 1 && self.k_m() >= 1 && self.m_of() >= 1,
            self.l_of() == 0 ==> self.k_a() == 0 && self.k_m() == 0 && self.m_of() == 0,
    {
        lemma_clog2_small(self.n as nat);
        let l = self.l_of();
        let n = self.n as int;
        let ra = self.additive_ratio as int;
        let rm = self.multiplicative_ratio as int;
        assert(1 <= ra * n) by (nonlinear_arith)
            requires 1 <= ra && 1 <= n;
        assert(l >= 1 ==> 1 <= ra * n * l) by (nonlinear_arith)
            requires ra * n >= 1;
        assert(ra * n * l <= 0x0800_0000 * 15) by (nonlinear_arith)
            requires 1 <= ra * n <= 0x0800_0000 && 0 <= l <= 15;
        assert(n * ra == ra * n) by (nonlinear_arith);
        assert(0 <= l * l <= 225) by (nonlinear_arith)
            requires 0 <= l <= 15;
        assert(l * l * n * rm <= 225 * (rm * n)) by (nonlinear_arith)
            requires 0 <= l * l <= 225 && 1 <= n && 1 <= rm;
        assert(225 * (rm * n) <= 225 * 0x0090_0000) by (nonlinear_arith)
            requires rm * n <= 0x0090_0000;
        assert(rm * n <= 0x0090_0000) by (nonlinear_arith)
            requires rm * n == self.multiplicative_ratio * self.n
                && self.multiplicative_ratio * self.n <= 0x0090_0000;
        assert(l >= 1 ==> l * l >= 1 && l * l * n >= 1 && l * l * n * rm >= 1)
            by (nonlinear_arith)
            requires n >= 1 && rm >= 1;
        assert(l >= 0 ==> l * l * n * rm >= 0) by (nonlinear_arith)
            requires n >= 1 && rm >= 1;
        assert(n * l * rm <= 15 * (rm * n)) by (nonlinear_arith)
            requires 0 <= l <= 15 && 1 <= n && 1 <= rm;
        assert(15 * (rm * n) <= 15 * 0x0090_0000) by (nonlinear_arith)
            requires rm * n <= 0x0090_0000;
        assert(l >= 1 ==> n * l >= 1 && n * l * rm >= 1) by (nonlinear_arith)
            requires n >= 1 && rm >= 1;
        assert(l >= 0 ==> n * l >= 0 && n * l * rm >= 0) by (nonlinear_arith)
            requires n >= 1 && rm >= 1;
        assert(l == 0 ==> ra * n * l == 0 && l * l * n * rm == 0 && n * l * rm == 0)
            by (nonlinear_arith);
    }
}

/// The cooling schedule is monotone nondecreasing: each emitted β is at most
/// the next one.
pub proof fn lemma_schedule_monotone(cfg: CoolingConfig, idx: int)
    requires
        cfg.wf(),
        0 <= idx,
        idx + 1 < cfg.schedule_len(),
    ensures
        beta_le(cfg, emitted_at(cfg, idx), emitted_at(cfg, idx + 1)),
{
    cfg.lemma_counts_nonneg();
    let ka = cfg.k_a();
    let da = cfg.d_a();
    let m = cfg.m_of();
    let b1 = emitted_at(cfg, idx);
    let b2 = emitted_at(cfg, idx + 1);
    if idx + 1 <= ka {
        assert(beta_num(cfg, b1) == idx && beta_num(cfg, b2) == idx + 1);
        lemma_mul_inequality(idx, idx + 1, da);
    } else {
        // The multiplicative phase is nonempty, so L >= 1 and M >= 1.
        assert(cfg.k_m() >= 1);
        assert(m >= 1);
        if idx == ka {
            lemma_pow1(m);
            lemma_pow1(m + 1);
            assert(beta_num(cfg, b1) == ka && beta_den(cfg, b1) == da);
            assert(beta_num(cfg, b2) == ka * (m + 1) && beta_den(cfg, b2) == da * m);
            assert(ka * (da * m) <= (ka * (m + 1)) * da) by (nonlinear_arith)
                requires ka >= 0 && da >= 0 && m >= 0;
        } else {
            let t = (idx - ka) as nat;
            assert(t + 1 == (idx + 1 - ka) as nat);
            lemma_pow_adds(m, t, 1);
            lemma_pow_adds(m + 1, t, 1);
            lemma_pow1(m);
            lemma_pow1(m + 1);
            lemma_pow_positive(m, t);
            lemma_pow_positive(m + 1, t);
            let p = pow(m + 1, t);
            let q = pow(m, t);
            assert(beta_num(cfg, b1) == ka * p && beta_den(cfg, b1) == da * q);
            assert(beta_num(cfg, b2) == ka * (p * (m + 1)));
            assert(beta_den(cfg, b2) == da * (q * m));
            assert((ka * p) * (da * (q * m)) <= (ka * (p * (m + 1))) * (da * q))
                by (nonlinear_arith)
                requires ka >= 0 && da >= 0 && m >= 0 && p >= 0 && q >= 0;
        }
    }
}

/// Within the multiplicative phase the schedule is strictly increasing.
pub proof fn lemma_schedule_strictly_increasing(cfg: CoolingConfig, idx: int)
    requires
        cfg.wf(),
        cfg.k_a() <= idx,
        idx + 1 < cfg.schedule_len(),
    ensures
        beta_num(cfg, emitted_at(cfg, idx)) * beta_den(cfg, emitted_at(cfg, idx + 1))
            < beta_num(cfg, emitted_at(cfg, idx + 1)) * beta_den(cfg, emitted_at(cfg, idx)),
{
    cfg.lemma_counts_nonneg();
    let ka = cfg.k_a();
    let da = cfg.d_a();
    let m = cfg.m_of();
    let b1 = emitted_at(cfg, idx);
    let b2 = emitted_at(cfg, idx + 1);
    assert(cfg.k_m() >= 1);
    assert(m >= 1 && ka >= 1 && da >= 1);
    if idx == ka {
        lemma_pow1(m);
        lemma_pow1(m + 1);
        assert(beta_num(cfg, b1) == ka && beta_den(cfg, b1) == da);
        assert(beta_num(cfg, b2) == ka * (m + 1) && beta_den(cfg, b2) == da * m);
        assert(ka * (da * m) < (ka * (m + 1)) * da) by (nonlinear_arith)
            requires ka >= 1 && da >= 1 && m >= 1;
    } else {
        let t = (idx - ka) as nat;
        assert(t + 1 == (idx + 1 - ka) as nat);
        lemma_pow_adds(m, t, 1);
        lemma_pow_adds(m + 1, t, 1);
        lemma_pow1(m);
        lemma_pow1(m + 1);
        lemma_pow_positive(m, t);
        lemma_pow_positive(m + 1, t);
        let p = pow(m + 1, t);
        let q = pow(m, t);
        assert(beta_num(cfg, b1) == ka * p && beta_den(cfg, b1) == da * q);
        assert(beta_num(cfg, b2) == ka * (p * (m + 1)));
        assert(beta_den(cfg, b2) == da * (q * m));
        assert((ka * p) * (da * (q * m)) < (ka * (p * (m + 1))) * (da * q))
            by (nonlinear_arith)
            requires ka >= 1 && da >= 1 && m >= 1 && p >= 1 && q >= 1;
    }
}

/// The schedule emits exactly K_a + 1 + K_m values before terminating.
pub proof fn lemma_schedule_count(cfg: CoolingConfig)
    requires
        cfg.wf(),
    ensures
        cfg.schedule_len() == cfg.k_a() + 1 + cfg.k_m(),
        cfg.schedule_len() >= 1,
{
    cfg.lemma_counts_nonneg();
}

} // verus!
