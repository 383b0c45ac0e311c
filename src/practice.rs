//! The practice game: a configuration, a session that goes from ready to
//! active to a scored result, and the rule that scores an answer.
use vstd::prelude::*;
use std::marker::PhantomData;
use std::time::Duration;
use crate::estimate::{EstimateGeometricMean, MAX_VALUES};
use crate::fixed::{Fixed, PICOS};
use crate::trivia::{guess_for, LogStdDev, TriviaGuessDistribution};

verus! {

#[verifier::external_type_specification]
#[verifier::external_body]
pub struct ExInstant(std::time::Instant);

/// Relies on std::time::Instant::now: reads the monotonic clock.
#[verifier::external_body]
fn instant_now() -> std::time::Instant {
    std::time::Instant::now()
}

/// Relies on std::time::Instant::elapsed: the time since `start` on the
/// monotonic clock.
#[verifier::external_body]
fn instant_elapsed(start: &std::time::Instant) -> Duration {
    start.elapsed()
}

/// A source of time for sessions, so that tests can substitute their own.
pub trait Timer {
    type Instant;

    /// The current instant.
    fn now(&self) -> Self::Instant;

    /// The time passed since `start`.
    fn elapsed(&self, start: Self::Instant) -> Duration;
}

/// The system's monotonic clock.
#[derive(Clone, Copy)]
pub struct SystemTimer;

impl Timer for SystemTimer {
    type Instant = std::time::Instant;

    fn now(&self) -> std::time::Instant {
        instant_now()
    }

    fn elapsed(&self, start: std::time::Instant) -> Duration {
        instant_elapsed(&start)
    }
}

/// Why a practice configuration, or a problem built from it, was rejected.
#[derive(Clone, Copy, Debug, PartialEq, Eq, Structural)]
pub enum ConfigurationError {
    ZeroTeamSize,
    InvalidAnswerRange,
}

/// How a submitted answer is scored.
#[derive(Clone, Copy, Debug, PartialEq, Eq, Structural)]
pub enum AnswerEvaluation {
    /// The answer is the estimate rounded down or up.
    Correct,
    /// The answer is closer to the exact mean than the estimate is.
    Excellent,
    /// Neither.
    Incorrect,
}

/// A practice configuration: team size, spread of the guesses, and the
/// range from which the true answer is drawn.
#[derive(Clone, Copy, Debug, PartialEq, Eq, Structural)]
pub struct PracticeModeConfig {
    pub team_size: usize,
    pub log_std_dev: LogStdDev,
    pub min_answer: u64,
    pub max_answer: u64,
}

impl PracticeModeConfig {
    /// Holds of every configuration that `new` accepts.
    pub open spec fn wf(self) -> bool {
        self.team_size >= 1 && 0 < self.min_answer < self.max_answer
    }

    /// Rejects a zero team size, then an answer range that is empty or does
    /// not start at a positive number.
    pub fn new(team_size: usize, log_std_dev: LogStdDev, min_answer: u64, max_answer: u64) -> (r:
        Result<PracticeModeConfig, ConfigurationError>)
        ensures
            team_size == 0 ==> r == Err::<PracticeModeConfig, ConfigurationError>(
                ConfigurationError::ZeroTeamSize,
            ),
            team_size != 0 && (min_answer == 0 || min_answer >= max_answer) ==> r == Err::<
                PracticeModeConfig,
                ConfigurationError,
            >(ConfigurationError::InvalidAnswerRange),
            team_size != 0 && 0 < min_answer < max_answer ==> r == Ok::<
                PracticeModeConfig,
                ConfigurationError,
            >(PracticeModeConfig { team_size, log_std_dev, min_answer, max_answer }),
    {
        if team_size == 0 {
            return Err(ConfigurationError::ZeroTeamSize);
        }
        if min_answer == 0 || min_answer >= max_answer {
            return Err(ConfigurationError::InvalidAnswerRange);
        }
        Ok(PracticeModeConfig { team_size, log_std_dev, min_answer, max_answer })
    }
}

/// A whole number converted as a float is to `u64`:
/// below zero gives 0, above the largest `u64` gives the largest.
pub open spec fn saturate_u64(x: int) -> int {
    if x < 0 {
        0
    } else if x > u64::MAX {
        u64::MAX as int
    } else {
        x
    }
}

/// The score of `user_answer` against an estimate and the exact mean, both
/// in trillionths and not negative.
pub open spec fn evaluation(user_answer: int, exact: int, estimate: int) -> AnswerEvaluation {
    let floor = saturate_u64(estimate / (PICOS as int));
    let ceil = saturate_u64((estimate + PICOS - 1) / (PICOS as int));
    let margin = if estimate >= exact {
        estimate - exact
    } else {
        exact - estimate
    };
    let user = user_answer * PICOS;
    if user_answer == floor || user_answer == ceil {
        AnswerEvaluation::Correct
    } else if exact - margin < user < exact + margin {
        AnswerEvaluation::Excellent
    } else {
        AnswerEvaluation::Incorrect
    }
}

fn saturating_to_u64(x: u128) -> (r: u64)
    ensures
        r == saturate_u64(x as int),
{
    if x > u64::MAX as u128 {
        u64::MAX
    } else {
        x as u64
    }
}

/// Scores `user_answer`: the estimate rounded down or up is correct; else
/// an answer strictly closer to the exact mean than the estimate is excellent.
pub fn evaluate_answer(user_answer: u64, exact_geometric_mean: Fixed, estimation_result: Fixed) -> (r:
    AnswerEvaluation)
    requires
        exact_geometric_mean.picos >= 0,
        estimation_result.picos >= 0,
    ensures
        r == evaluation(
            user_answer as int,
            exact_geometric_mean.picos as int,
            estimation_result.picos as int,
        ),
{
    let floor = saturating_to_u64(estimation_result.floor_whole());
    let ceil = saturating_to_u64(estimation_result.ceil_whole());
    if user_answer == floor || user_answer == ceil {
        return AnswerEvaluation::Correct;
    }
    let exact = exact_geometric_mean.picos;
    let estimate = estimation_result.picos;
    let margin = if estimate >= exact {
        estimate - exact
    } else {
        exact - estimate
    };
    let user = user_answer as i128 * PICOS;
    let distance = if user >= exact {
        user - exact
    } else {
        exact - user
    };
    if distance < margin {
        AnswerEvaluation::Excellent
    } else {
        AnswerEvaluation::Incorrect
    }
}

/// The state of a session that has no problem yet.
#[derive(Debug, Clone, Copy)]
pub struct Ready;

/// A practice session in state `S`, timed by `T`, scoring against method `E`.
pub struct PracticeSession<S, T, E> {
    timer: T,
    estimation_method: PhantomData<E>,
    state: PhantomData<S>,
}

/// A session with a problem on the table, waiting for the answer.
pub struct ActiveSession<T: Timer, E> {
    exact_geometric_mean: Fixed,
    estimation_result: Fixed,
    start_instant: T::Instant,
    timer: T,
    estimation_method: PhantomData<E>,
}

/// The scored answer to one problem.
#[derive(Debug)]
pub struct PracticeResult {
    pub user_answer: u64,
    pub exact_geometric_mean: Fixed,
    pub estimation_result: u64,
    pub duration: Duration,
    pub evaluation: AnswerEvaluation,
}

/// The team's guesses for `draws`, from a distribution around
/// `correct_answer` with spread `log_std_dev`.
pub open spec fn team_guesses(correct_answer: u64, log_std_dev: LogStdDev, draws: Seq<Fixed>) -> Seq<
    u64,
> {
    Seq::new(draws.len(), |i: int| guess_for(correct_answer, log_std_dev, draws[i]) as u64)
}

/// Whole numbers as fixed-point values.
pub open spec fn as_fixed(values: Seq<u64>) -> Seq<Fixed> {
    Seq::new(values.len(), |i: int| Fixed { picos: (values[i] * PICOS) as i128 })
}

/// Whether a distribution around `correct_answer` with `log_std_dev` can be built.
pub open spec fn distribution_accepts(correct_answer: u64, log_std_dev: LogStdDev) -> bool {
    correct_answer != 0 && log_std_dev.spec_is_finite() && !log_std_dev.spec_is_negative()
        && !log_std_dev.spec_exceeds_limit()
}

impl<S, T, E> PracticeSession<S, T, E> {
    pub closed spec fn spec_timer(self) -> T {
        self.timer
    }
}

impl<T: Timer, E: EstimateGeometricMean> PracticeSession<Ready, T, E> {
    /// A session with no problem yet, timed by `timer`.
    pub fn new(timer: T) -> (r: Self)
        ensures
            r.spec_timer() == timer,
    {
        PracticeSession { timer, estimation_method: PhantomData, state: PhantomData }
    }

    /// Starts a problem whose true answer is `correct_answer`: one guess per
    /// team member from `draws` (log-normal values around the answer, one
    /// each), the exact mean of the guesses from `exact_mean`, and the
    /// method's estimate; then starts the clock. A distribution that cannot
    /// be built, or guesses that the method rejects, give `InvalidAnswerRange`.
    pub fn start<F: Fn(&Vec<u64>) -> Fixed>(
        self,
        config: &PracticeModeConfig,
        correct_answer: u64,
        draws: &Vec<Fixed>,
        exact_mean: F,
    ) -> (r: Result<(Vec<u64>, ActiveSession<T, E>), ConfigurationError>)
        requires
            config.wf(),
            config.team_size <= MAX_VALUES,
            draws@.len() == config.team_size,
            forall|g: &Vec<u64>| #[trigger] exact_mean.requires((g,)),
        ensures
            !distribution_accepts(correct_answer, config.log_std_dev) ==> r == Err::<
                (Vec<u64>, ActiveSession<T, E>),
                ConfigurationError,
            >(ConfigurationError::InvalidAnswerRange),
            ({
                let guesses = team_guesses(correct_answer, config.log_std_dev, draws@);
                distribution_accepts(correct_answer, config.log_std_dev) ==> match r {
                    Ok((g, active)) => {
                        &&& g@ == guesses
                        &&& E::spec_estimate(as_fixed(guesses)) is Ok
                        &&& active.spec_estimation_result() == E::spec_estimate(
                            as_fixed(guesses),
                        )->Ok_0
                        &&& exact_mean.ensures((&g,), active.spec_exact_geometric_mean())
                    },
                    Err(e) => {
                        &&& e == ConfigurationError::InvalidAnswerRange
                        &&& E::spec_estimate(as_fixed(guesses)) is Err
                    },
                }
            }),
    {
        let distribution = match TriviaGuessDistribution::new(correct_answer, config.log_std_dev) {
            Ok(d) => d,
            Err(_) => {
                return Err(ConfigurationError::InvalidAnswerRange);
            },
        };
        let n = config.team_size;
        let mut guesses: Vec<u64> = Vec::new();
        let mut values: Vec<Fixed> = Vec::new();
        let mut i: usize = 0;
        while i < n
            invariant
                n == draws@.len(),
                0 <= i <= n,
                distribution.spec_correct_answer() == correct_answer,
                distribution.spec_log_std_dev() == config.log_std_dev,
                guesses@ == team_guesses(correct_answer, config.log_std_dev, draws@).take(
                    i as int,
                ),
                values@ == as_fixed(guesses@),
            decreases n - i,
        {
            let guess = distribution.sample(draws[i]);
            guesses.push(guess);
            values.push(Fixed::from_whole(guess));
            i = i + 1;
            proof {
                assert(guesses@ =~= team_guesses(correct_answer, config.log_std_dev, draws@).take(
                    i as int,
                ));
                assert(values@ =~= as_fixed(guesses@));
            }
        }
        proof {
            assert(guesses@ =~= team_guesses(correct_answer, config.log_std_dev, draws@));
            assert forall|j: int| 0 <= j < values@.len() implies #[trigger] values@[j].picos
                < crate::estimate::MAX_VALUE_PICOS by {
                assert(values@[j].picos == guesses@[j] * PICOS);
            }
        }
        let estimation_result = match E::estimate_geometric_mean(values.as_slice()) {
            Ok(e) => e,
            Err(_) => {
                return Err(ConfigurationError::InvalidAnswerRange);
            },
        };
        let exact_geometric_mean = exact_mean(&guesses);
        let start_instant = self.timer.now();
        let active = ActiveSession {
            exact_geometric_mean,
            estimation_result,
            start_instant,
            timer: self.timer,
            estimation_method: PhantomData,
        };
        Ok((guesses, active))
    }
}

impl<T: Timer, E> ActiveSession<T, E> {
    pub closed spec fn spec_exact_geometric_mean(self) -> Fixed {
        self.exact_geometric_mean
    }

    pub closed spec fn spec_estimation_result(self) -> Fixed {
        self.estimation_result
    }

    /// The exact geometric mean of the guesses.
    pub fn exact_geometric_mean(&self) -> (r: Fixed)
        ensures
            r == self.spec_exact_geometric_mean(),
    {
        self.exact_geometric_mean
    }

    /// The installed method's estimate for the guesses.
    pub fn estimation_result(&self) -> (r: Fixed)
        ensures
            r == self.spec_estimation_result(),
    {
        self.estimation_result
    }

    /// The session's timer.
    pub fn timer(&self) -> &T {
        &self.timer
    }

    /// Stops the clock and scores `user_answer`; the session is used up.
    pub fn submit_answer(self, user_answer: u64) -> (r: PracticeResult)
        requires
            self.spec_exact_geometric_mean().picos >= 0,
            self.spec_estimation_result().picos >= 0,
        ensures
            r.user_answer == user_answer,
            r.exact_geometric_mean == self.spec_exact_geometric_mean(),
            r.estimation_result == saturate_u64(
                self.spec_estimation_result().picos as int / (PICOS as int),
            ),
            r.evaluation == evaluation(
                user_answer as int,
                self.spec_exact_geometric_mean().picos as int,
                self.spec_estimation_result().picos as int,
            ),
    {
        let duration = self.timer.elapsed(self.start_instant);
        let evaluation = evaluate_answer(
            user_answer,
            self.exact_geometric_mean,
            self.estimation_result,
        );
        PracticeResult {
            user_answer,
            exact_geometric_mean: self.exact_geometric_mean,
            estimation_result: saturating_to_u64(self.estimation_result.floor_whole()),
            duration,
            evaluation,
        }
    }
}

} // verus!
