//! Loops that tick at a rate or with a minimum distance.
//!
//! All points in time and durations are whole nanoseconds.
use vstd::prelude::*;

verus! {

/// How the ticks of a loop follow each other.
#[derive(Debug, Clone, Copy, PartialEq, Eq, Structural)]
pub enum TickType {
    /// So many ticks per second.
    Rate(usize),
    /// At least so many nanoseconds between two ticks.
    MinDuration(u64),
}

/// The minimum distance of ticks when nothing else is asked for: ten milliseconds.
pub const DEFAULT_MIN_DURATION: u64 = 10_000_000;

impl Default for TickType {
    fn default() -> (r: Self)
        ensures
            r == TickType::MinDuration(DEFAULT_MIN_DURATION),
    {
        TickType::MinDuration(DEFAULT_MIN_DURATION)
    }
}

/// When the next tick is due.
#[derive(Debug, Clone, Copy, PartialEq, Eq, Structural)]
pub struct NextTick {
    /// The point in time, `None` for at once.
    pub at: Option<u64>,
    /// The ticks that are left out because the last one took too long.
    pub skipped: u64,
}

impl TickType {
    /// What [`TickType::next_tick`] returns.
    pub open spec fn is_next_tick(self, last_tick: int, now: int, tick_size: int, next: NextTick) -> bool {
        match self {
            TickType::Rate(_) => {
                &&& next.at == Some((last_tick + (next.skipped + 1) * tick_size) as u64)
                &&& last_tick + (next.skipped + 1) * tick_size >= now
                &&& next.skipped > 0 ==> last_tick + next.skipped * tick_size < now
            },
            TickType::MinDuration(min_duration) => {
                &&& next.skipped == 0
                &&& next.at == (if last_tick + min_duration > now {
                    Some((last_tick + min_duration) as u64)
                } else {
                    None
                })
            },
        }
    }

    /// Whether the times around the next tick can be counted.
    pub open spec fn in_range(self, last_tick: int, now: int, tick_size: int) -> bool {
        match self {
            TickType::Rate(_) => {
                &&& tick_size > 0
                &&& last_tick + tick_size <= u64::MAX
                &&& now + tick_size <= u64::MAX
            },
            TickType::MinDuration(min_duration) => last_tick + min_duration <= u64::MAX,
        }
    }

    /// When the tick after the one at `last_tick` is due, seen at `now`.
    ///
    /// At a rate, ticks stay on the grid of `tick_size` that starts at the last tick; those that
    /// have passed already are skipped. With a minimum distance the tick is due once that has
    /// passed.
    pub fn next_tick(&self, last_tick: u64, now: u64, tick_size: u64) -> (r: NextTick)
        requires
            self.in_range(last_tick as int, now as int, tick_size as int),
        ensures
            self.is_next_tick(last_tick as int, now as int, tick_size as int, r),
    {
        match self {
            TickType::Rate(_) => {
                let mut next: u64 = last_tick + tick_size;
                let mut skipped: u64 = 0;
                assert(1 * tick_size == tick_size);
                while next < now
                    invariant
                        tick_size > 0,
                        now + tick_size <= u64::MAX,
                        next == last_tick + (skipped + 1) * tick_size,
                        skipped > 0 ==> last_tick + skipped * tick_size < now,
                        skipped <= next,
                    decreases u64::MAX - next,
                {
                    assert((skipped + 2) * tick_size == (skipped + 1) * tick_size + tick_size) by (nonlinear_arith);
                    assert(skipped + 1 <= next) by (nonlinear_arith)
                        requires
                            next == last_tick + (skipped + 1) * tick_size,
                            tick_size > 0,
                            last_tick >= 0,
                            skipped >= 0,
                    ;
                    next = next + tick_size;
                    skipped = skipped + 1;
                }
                NextTick { at: Some(next), skipped }
            },
            TickType::MinDuration(min_duration) => {
                let next: u64 = last_tick + *min_duration;
                if next > now {
                    NextTick { at: Some(next), skipped: 0 }
                } else {
                    NextTick { at: None, skipped: 0 }
                }
            },
        }
    }
}

/// The next tick at a rate is never in the past, and never further away than one tick.
pub proof fn lemma_rate_tick_is_near(rate: usize, last_tick: u64, now: u64, tick_size: u64, next: NextTick)
    requires
        tick_size > 0,
        last_tick <= now,
        now + tick_size <= u64::MAX,
        TickType::Rate(rate).is_next_tick(last_tick as int, now as int, tick_size as int, next),
    ensures
        next.at.is_some(),
        now <= next.at.unwrap() <= now + tick_size,
{
    let k = next.skipped as int;
    let t = tick_size as int;
    assert((k + 1) * t == k * t + t) by (nonlinear_arith);
    assert(0 * t == 0);
    assert(k > 0 || k * t == 0);
}

/// Where a running loop stands between two ticks.
#[derive(Debug, Clone, Copy, PartialEq, Eq, Structural)]
pub struct TickState {
    pub tick_type: TickType,
    pub last_tick: u64,
    pub next_tick: Option<u64>,
}

impl TickState {
    /// Whether this is the state after a tick at `last_tick`, seen at `now`.
    pub open spec fn is_after(self, tick_type: TickType, last_tick: u64, now: u64, tick_size: u64) -> bool {
        &&& self.tick_type == tick_type
        &&& self.last_tick == last_tick
        &&& exists|next: NextTick| #[trigger]
            tick_type.is_next_tick(last_tick as int, now as int, tick_size as int, next) && self.next_tick
                == next.at
    }

    /// The state after a tick at `last_tick`, seen at `now`.
    pub fn after_tick(tick_type: TickType, last_tick: u64, now: u64, tick_size: u64) -> (r: Self)
        requires
            tick_type.in_range(last_tick as int, now as int, tick_size as int),
        ensures
            r.is_after(tick_type, last_tick, now, tick_size),
    {
        let next = tick_type.next_tick(last_tick, now, tick_size);
        TickState { tick_type, last_tick, next_tick: next.at }
    }

    /// How long to sleep at `now` before the next tick.
    pub fn delay(&self, now: u64) -> (r: u64)
        ensures
            r == (match self.next_tick {
                Some(at) if at > now => at - now,
                _ => 0,
            }),
    {
        match self.next_tick {
            Some(at) => if at > now {
                at - now
            } else {
                0
            },
            None => 0,
        }
    }

    /// The time that has passed since the last tick when the next one starts.
    pub fn delta(&self, tick_start: u64) -> (r: u64)
        requires
            self.last_tick <= tick_start,
        ensures
            r == tick_start - self.last_tick,
    {
        tick_start - self.last_tick
    }
}

/// Why a loop could not be started.
#[derive(Debug)]
pub enum TickLoopBuildError<E> {
    /// A required option was not given.
    MissingOption { name: String },
    /// The initialization failed.
    InitError(E),
}

impl<E> TickLoopBuildError<E> {
    fn missing_option(name: &str) -> (r: Self)
        ensures
            r is MissingOption,
            r->name@ == name@,
    {
        TickLoopBuildError::MissingOption { name: name.to_owned() }
    }

    /// The text of the error; `detail` is the text of the failed initialization's own error.
    pub fn to_text(&self, detail: &str) -> (r: String)
        ensures
            r@ == (match *self {
                TickLoopBuildError::MissingOption { name } => "Missing required option: '"@ + name@ + "'"@,
                TickLoopBuildError::InitError(_) => "Initialization failed: "@ + detail@,
            }),
    {
        match self {
            TickLoopBuildError::MissingOption { name } => {
                let mut s = "Missing required option: '".to_owned();
                s.append(name.as_str());
                s.append("'");
                s
            },
            TickLoopBuildError::InitError(_) => {
                let mut s = "Initialization failed: ".to_owned();
                s.append(detail);
                s
            },
        }
    }
}

/// A loop that is ready to tick.
pub struct TickLoop<D, FT> {
    pub name: String,
    pub tick_type: TickType,
    pub data: D,
    pub fn_tick: FT,
}

/// A loop that runs, between two ticks.
pub struct TickRun<D, FT> {
    pub name: String,
    /// What every tick is given, as the tick before has left it.
    pub data: D,
    pub fn_tick: FT,
    pub state: TickState,
}

impl<D, FT> TickLoop<D, FT> {
    /// Lets the loop run from `start` on, seen at `now`.
    pub fn run(self, start: u64, now: u64, tick_size: u64) -> (r: TickRun<D, FT>)
        requires
            self.tick_type.in_range(start as int, now as int, tick_size as int),
        ensures
            r.name == self.name,
            r.data == self.data,
            r.fn_tick == self.fn_tick,
            r.state.is_after(self.tick_type, start, now, tick_size),
    {
        let state = TickState::after_tick(self.tick_type, start, now, tick_size);
        TickRun { name: self.name, data: self.data, fn_tick: self.fn_tick, state }
    }
}

impl<D, FT> TickRun<D, FT> {
    /// Ticks at `tick_start`, on the data that the tick before has left. If the tick wants the loop to
    /// end, there is nothing left to tick.
    pub fn tick(self, tick_start: u64) -> (r: Option<Self>) where FT: FnMut(&mut D, u64) -> bool
        requires
            self.state.last_tick <= tick_start,
            forall|data: &mut D|
                *data == self.data ==> call_requires(
                    self.fn_tick,
                    (data, (tick_start - self.state.last_tick) as u64),
                ),
        ensures
            exists|data: &mut D|
                *data == self.data && #[trigger] call_ensures(
                    self.fn_tick,
                    (data, (tick_start - self.state.last_tick) as u64),
                    r.is_some(),
                ) && (r.is_some() ==> r.unwrap().data == *final(data)),
            r.is_some() ==> {
                &&& r.unwrap().name == self.name
                &&& r.unwrap().fn_tick == self.fn_tick
                &&& r.unwrap().state == self.state
            },
    {
        let delta = self.state.delta(tick_start);
        let mut fn_tick = self.fn_tick;
        let mut data = self.data;
        let go_on = fn_tick(&mut data, delta);
        if go_on {
            Some(TickRun { name: self.name, data, fn_tick, state: self.state })
        } else {
            None
        }
    }

    /// The loop after a tick at `tick_start`, seen at `now`.
    pub fn after_tick(self, tick_start: u64, now: u64, tick_size: u64) -> (r: Self)
        requires
            self.state.tick_type.in_range(tick_start as int, now as int, tick_size as int),
        ensures
            r.name == self.name,
            r.data == self.data,
            r.fn_tick == self.fn_tick,
            r.state.is_after(self.state.tick_type, tick_start, now, tick_size),
    {
        let state = TickState::after_tick(self.state.tick_type, tick_start, now, tick_size);
        TickRun { name: self.name, data: self.data, fn_tick: self.fn_tick, state }
    }
}

/// The options of a loop.
pub struct TickLoopBuilder<FI, FT> {
    pub name: Option<String>,
    pub tick_type: Option<TickType>,
    pub fn_init: Option<FI>,
    pub fn_tick: Option<FT>,
}

impl<FI, FT> TickLoopBuilder<FI, FT> {
    /// No option is set.
    pub fn new() -> (r: Self)
        ensures
            r == (TickLoopBuilder::<FI, FT> { name: None, tick_type: None, fn_init: None, fn_tick: None }),
    {
        TickLoopBuilder { name: None, tick_type: None, fn_init: None, fn_tick: None }
    }

    /// Sets the name of the loop.
    pub fn name(self, name: String) -> (r: Self)
        ensures
            r == (TickLoopBuilder { name: Some(name), ..self }),
    {
        let mut builder = self;
        builder.name = Some(name);
        builder
    }

    /// Lets ticks keep a minimum distance.
    pub fn min_tick_duration(self, min_tick_duration: u64) -> (r: Self)
        ensures
            r == (TickLoopBuilder {
                tick_type: Some(TickType::MinDuration(min_tick_duration)),
                ..self
            }),
    {
        let mut builder = self;
        builder.tick_type = Some(TickType::MinDuration(min_tick_duration));
        builder
    }

    /// Lets the loop tick at a rate.
    pub fn tick_rate(self, tick_rate: usize) -> (r: Self)
        ensures
            r == (TickLoopBuilder { tick_type: Some(TickType::Rate(tick_rate)), ..self }),
    {
        let mut builder = self;
        builder.tick_type = Some(TickType::Rate(tick_rate));
        builder
    }

    /// Sets what makes the loop's data.
    pub fn init(self, f: FI) -> (r: Self)
        ensures
            r == (TickLoopBuilder { fn_init: Some(f), ..self }),
    {
        let mut builder = self;
        builder.fn_init = Some(f);
        builder
    }

    /// Sets what each tick does.
    pub fn tick(self, f: FT) -> (r: Self)
        ensures
            r == (TickLoopBuilder { fn_tick: Some(f), ..self }),
    {
        let mut builder = self;
        builder.fn_tick = Some(f);
        builder
    }

    /// Makes the loop's data, and hands out the loop, ready to tick.
    ///
    /// Without `init` or else without `tick`, that option is reported as missing and nothing is
    /// called.
    pub fn start<D, E>(self) -> (r: Result<TickLoop<D, FT>, TickLoopBuildError<E>>) where
        FI: FnOnce() -> Result<D, E>,

        requires
            self.fn_init.is_some() ==> call_requires(self.fn_init.unwrap(), ()),
        ensures
            self.fn_init.is_none() ==> r.is_err() && r->Err_0 is MissingOption && r->Err_0->name@
                == "init"@,
            self.fn_init.is_some() && self.fn_tick.is_none() ==> r.is_err() && r->Err_0 is MissingOption
                && r->Err_0->name@ == "tick"@,
            self.fn_init.is_some() && self.fn_tick.is_some() ==> match r {
                Ok(tick_loop) => {
                    &&& call_ensures(self.fn_init.unwrap(), (), Ok::<D, E>(tick_loop.data))
                    &&& tick_loop.fn_tick == self.fn_tick.unwrap()
                    &&& self.name.is_some() ==> tick_loop.name == self.name.unwrap()
                    &&& self.name.is_none() ==> tick_loop.name@ == "tick-loop"@
                    &&& tick_loop.tick_type == (match self.tick_type {
                        Some(tick_type) => tick_type,
                        None => TickType::MinDuration(DEFAULT_MIN_DURATION),
                    })
                },
                Err(error) => {
                    &&& error is InitError
                    &&& call_ensures(self.fn_init.unwrap(), (), Err::<D, E>(error->InitError_0))
                },
            },
    {
        let name = match self.name {
            Some(name) => name,
            None => "tick-loop".to_owned(),
        };
        let tick_type = match self.tick_type {
            Some(tick_type) => tick_type,
            None => TickType::default(),
        };
        let fn_init = match self.fn_init {
            Some(f) => f,
            None => return Err(TickLoopBuildError::missing_option("init")),
        };
        let fn_tick = match self.fn_tick {
            Some(f) => f,
            None => return Err(TickLoopBuildError::missing_option("tick")),
        };
        match fn_init() {
            Ok(data) => Ok(TickLoop { name, tick_type, data, fn_tick }),
            Err(error) => Err(TickLoopBuildError::InitError(error)),
        }
    }
}

/// The next tick at a rate is the first one on the grid of whole ticks behind the last tick that is
/// not in the past, and as many are skipped as lie in the past.
pub proof fn lemma_rate_tick_is_next_on_grid(
    rate: usize,
    last_tick: u64,
    now: u64,
    tick_size: u64,
    next: NextTick,
    k: int,
)
    requires
        tick_size > 0,
        last_tick + tick_size <= u64::MAX,
        now + tick_size <= u64::MAX,
        k >= 1,
        TickType::Rate(rate).is_next_tick(last_tick as int, now as int, tick_size as int, next),
    ensures
        next.at matches Some(at) && {
            &&& at >= now
            &&& at == last_tick + (next.skipped + 1) * tick_size
            &&& last_tick + k * tick_size >= now ==> at <= last_tick + k * tick_size
            &&& k <= next.skipped <==> last_tick + k * tick_size < now
        },
{
    let t = tick_size as int;
    let s = next.skipped as int;
    assert((s + 1) * t == s * t + t) by (nonlinear_arith);
    assert(k <= s ==> k * t <= s * t) by (nonlinear_arith)
        requires
            t > 0,
    ;
    assert(k > s ==> k * t >= (s + 1) * t) by (nonlinear_arith)
        requires
            t > 0,
    ;
    assert(s == 0 ==> s * t == 0) by (nonlinear_arith);
    assert(last_tick + (s + 1) * t <= u64::MAX);
}

/// With a minimum distance no tick is skipped, and the next one is due once that distance has passed
/// since the last one: at once, if it has passed already.
pub proof fn lemma_distance_is_kept(min_duration: u64, last_tick: u64, now: u64, tick_size: u64, next: NextTick)
    requires
        last_tick + min_duration <= u64::MAX,
        TickType::MinDuration(min_duration).is_next_tick(last_tick as int, now as int, tick_size as int, next),
    ensures
        next.skipped == 0,
        now - last_tick >= min_duration <==> next.at is None,
        next.at matches Some(at) ==> at - last_tick == min_duration && at > now,
{
}

/// After a tick a loop waits for the tick that is due next, and knows when it has ticked last.
pub proof fn lemma_state_after_tick(state: TickState, tick_type: TickType, last_tick: u64, now: u64, tick_size: u64)
    requires
        tick_type.in_range(last_tick as int, now as int, tick_size as int),
        last_tick <= now,
        state.is_after(tick_type, last_tick, now, tick_size),
    ensures
        state.last_tick == last_tick,
        state.tick_type == tick_type,
        tick_type matches TickType::MinDuration(min_duration) ==> {
            &&& state.next_tick is None <==> now - last_tick >= min_duration
            &&& state.next_tick matches Some(at) ==> at == last_tick + min_duration
        },
        tick_type is Rate ==> {
            &&& state.next_tick matches Some(at) && now <= at <= now + tick_size
        },
{
    let next = choose|next: NextTick| #[trigger]
        tick_type.is_next_tick(last_tick as int, now as int, tick_size as int, next) && state.next_tick == next.at;
    match tick_type {
        TickType::Rate(rate) => {
            lemma_rate_tick_is_near(rate, last_tick, now, tick_size, next);
        },
        TickType::MinDuration(min_duration) => {
            lemma_distance_is_kept(min_duration, last_tick, now, tick_size, next);
        },
    }
}

} // verus!
